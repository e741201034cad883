//! Character-level scanning helpers shared by the message, tag and identity
//! parsers: finding a delimiter, splitting at it, trimming whitespace, and
//! the parameter-list grammar.

use vstd::prelude::*;
use vstd::string::StrSliceExecFns;
use vstd::string::StringExecFns;

verus! {

/// Index of the first occurrence of `c` in `s`, or `s.len()` if `c` is absent.
pub open spec fn find_char(s: Seq<char>, c: char) -> int
    decreases s.len(),
{
    if s.len() == 0 {
        0
    } else if s[0] == c {
        0
    } else {
        1 + find_char(s.skip(1), c)
    }
}

/// No character of `s` is `c`.
pub open spec fn no_char(s: Seq<char>, c: char) -> bool {
    forall|j: int| 0 <= j < s.len() ==> s[j] != c
}

pub proof fn lemma_find_char(s: Seq<char>, c: char)
    ensures
        0 <= find_char(s, c) <= s.len(),
        forall|j: int| 0 <= j < find_char(s, c) ==> s[j] != c,
        find_char(s, c) < s.len() ==> s[find_char(s, c)] == c,
    decreases s.len(),
{
    if s.len() != 0 && s[0] != c {
        lemma_find_char(s.skip(1), c);
        assert forall|j: int| 0 <= j < find_char(s, c) implies s[j] != c by {
            if j > 0 {
                assert(s.skip(1)[j - 1] == s[j]);
            }
        }
        if find_char(s, c) < s.len() {
            assert(s.skip(1)[find_char(s, c) - 1] == s[find_char(s, c)]);
        }
    }
}

/// `find_char` is pinned down by its characterisation: if everything before
/// `i` differs from `c` and `i` is an occurrence (or the end), then `i` is it.
pub proof fn lemma_find_char_is(s: Seq<char>, c: char, i: int)
    requires
        0 <= i <= s.len(),
        forall|j: int| 0 <= j < i ==> s[j] != c,
        i < s.len() ==> s[i] == c,
    ensures
        find_char(s, c) == i,
    decreases s.len(),
{
    if s.len() == 0 {
    } else if s[0] == c {
        assert(i == 0);
    } else {
        assert(s[0] != c);
        assert(i >= 1);
        assert forall|j: int| 0 <= j < i - 1 implies s.skip(1)[j] != c by {
            assert(s.skip(1)[j] == s[j + 1]);
        }
        if i - 1 < s.skip(1).len() {
            assert(s.skip(1)[i - 1] == s[i]);
        }
        lemma_find_char_is(s.skip(1), c, i - 1);
    }
}

/// Where the first occurrence of `c` falls in a concatenation.
pub proof fn lemma_find_char_append(a: Seq<char>, b: Seq<char>, c: char)
    ensures
        find_char(a + b, c) == if find_char(a, c) < a.len() {
            find_char(a, c)
        } else {
            a.len() + find_char(b, c)
        },
{
    lemma_find_char(a, c);
    lemma_find_char(b, c);
    let fa = find_char(a, c);
    let fb = find_char(b, c);
    if fa < a.len() {
        assert forall|j: int| 0 <= j < fa implies (a + b)[j] != c by {
            assert((a + b)[j] == a[j]);
        }
        assert((a + b)[fa] == a[fa]);
        lemma_find_char_is(a + b, c, fa);
    } else {
        let i = a.len() + fb;
        assert forall|j: int| 0 <= j < i implies (a + b)[j] != c by {
            if j < a.len() {
                assert((a + b)[j] == a[j]);
            } else {
                assert((a + b)[j] == b[j - a.len()]);
            }
        }
        if i < (a + b).len() {
            assert((a + b)[i] == b[fb]);
        }
        lemma_find_char_is(a + b, c, i);
    }
}

/// The prefix of `s` before the first `c` (all of `s` if `c` is absent).
pub open spec fn take_until(s: Seq<char>, c: char) -> Seq<char> {
    s.subrange(0, find_char(s, c))
}

/// The suffix of `s` after the first `c` (empty if `c` is absent).
pub open spec fn rest_after(s: Seq<char>, c: char) -> Seq<char> {
    if 0 <= find_char(s, c) < s.len() {
        s.subrange(find_char(s, c) + 1, s.len() as int)
    } else {
        Seq::empty()
    }
}

/// First index of `c` in `s`, or the character length of `s` if absent.
pub fn find_in_str(s: &str, c: char) -> (i: usize)
    ensures
        i as int == find_char(s@, c),
        i <= s@.len(),
{
    let n: usize = s.unicode_len();
    let mut i: usize = 0;
    while i < n
        invariant
            0 <= i <= n,
            n == s@.len(),
            forall|j: int| 0 <= j < i ==> s@[j] != c,
        decreases n - i,
    {
        if s.get_char(i) == c {
            proof {
                lemma_find_char_is(s@, c, i as int);
            }
            return i;
        }
        i = i + 1;
    }
    proof {
        lemma_find_char_is(s@, c, n as int);
    }
    n
}

/// Splits `s` at the first occurrence of `c`: the part before it, and the
/// part after it (empty if `c` does not occur).  The delimiter is dropped.
pub fn split_first_at(s: &str, c: char) -> (r: (String, String))
    ensures
        r.0@ == take_until(s@, c),
        r.1@ == rest_after(s@, c),
{
    let n: usize = s.unicode_len();
    let i = find_in_str(s, c);
    proof {
        lemma_find_char(s@, c);
    }
    let head = String::from_str(s.substring_char(0, i));
    let tail = if i < n {
        String::from_str(s.substring_char(i + 1, n))
    } else {
        String::new()
    };
    proof {
        if i >= n {
            assert(rest_after(s@, c) =~= Seq::<char>::empty());
        }
    }
    (head, tail)
}

// ---------------------------------------------------------------------------
// The parameter-list grammar
// ---------------------------------------------------------------------------

/// Whether position `i` of `s` could begin the trailing marker: a `:`
/// standing at a token boundary, that is at the start or right after a
/// space.
pub open spec fn marker_boundary(s: Seq<char>, i: int) -> bool {
    s[i] == ':' && (i == 0 || s[i - 1] == ' ')
}

/// Index of the trailing marker in a parameter region: the first `:` at a
/// token boundary, or `s.len()` if there is none.
pub open spec fn find_marker(s: Seq<char>) -> int
    decreases s.len(),
{
    if s.len() == 0 {
        0
    } else if s[0] == ':' {
        0
    } else {
        let f = find_char(s, ' ');
        if 0 <= f < s.len() {
            f + 1 + find_marker(s.subrange(f + 1, s.len() as int))
        } else {
            s.len() as int
        }
    }
}

pub proof fn lemma_find_marker(s: Seq<char>)
    ensures
        0 <= find_marker(s) <= s.len(),
        forall|j: int| 0 <= j < find_marker(s) ==> !marker_boundary(s, j),
        find_marker(s) < s.len() ==> marker_boundary(s, find_marker(s)),
    decreases s.len(),
{
    if s.len() == 0 {
    } else if s[0] == ':' {
    } else {
        lemma_find_char(s, ' ');
        let f = find_char(s, ' ');
        if f < s.len() {
            let tail = s.subrange(f + 1, s.len() as int);
            lemma_find_marker(tail);
            let rt = find_marker(tail);
            let r = f + 1 + rt;
            assert forall|j: int| 0 <= j < r implies !marker_boundary(s, j) by {
                if j == 0 {
                } else if j <= f {
                    assert(s[j - 1] != ' ');
                } else {
                    let jt = j - (f + 1);
                    assert(!marker_boundary(tail, jt));
                    assert(tail[jt] == s[j]);
                    if jt == 0 {
                        assert(s[j - 1] == ' ');
                    } else {
                        assert(tail[jt - 1] == s[j - 1]);
                    }
                }
            }
            if r < s.len() {
                assert(marker_boundary(tail, rt));
                assert(tail[rt] == s[r]);
                if rt == 0 {
                    assert(s[r - 1] == s[f]);
                } else {
                    assert(tail[rt - 1] == s[r - 1]);
                }
            }
        } else {
            assert forall|j: int| 0 <= j < s.len() implies !marker_boundary(s, j) by {
                if j > 0 {
                    assert(s[j - 1] != ' ');
                }
            }
        }
    }
}

/// `find_marker` is pinned down by its characterisation.
pub proof fn lemma_find_marker_is(s: Seq<char>, i: int)
    requires
        0 <= i <= s.len(),
        forall|j: int| 0 <= j < i ==> !marker_boundary(s, j),
        i < s.len() ==> marker_boundary(s, i),
    ensures
        find_marker(s) == i,
{
    lemma_find_marker(s);
    let r = find_marker(s);
    if i < r {
        assert(marker_boundary(s, i));
        assert(!marker_boundary(s, i));
    } else if r < i {
        assert(marker_boundary(s, r));
        assert(!marker_boundary(s, r));
    }
}

/// The space-separated pieces of `t`; empty text yields no piece.
pub open spec fn split_spaces(t: Seq<char>) -> Seq<Seq<char>>
    decreases t.len(),
{
    if t.len() == 0 {
        Seq::empty()
    } else {
        let f = find_char(t, ' ');
        if 0 <= f < t.len() {
            seq![t.subrange(0, f)] + split_spaces(t.subrange(f + 1, t.len() as int))
        } else {
            seq![t]
        }
    }
}

/// The parameter list encoded in the text that follows a command token:
/// the text before the trailing marker (a `:` at a token boundary) is
/// trimmed of surrounding whitespace and split on single spaces; the
/// marker turns the whole remainder into one final parameter, which may
/// be empty.  Empty text yields no parameter at all.
pub open spec fn parse_params(s: Seq<char>) -> Seq<Seq<char>> {
    let m = find_marker(s);
    if 0 <= m < s.len() {
        split_spaces(trim_ws(s.subrange(0, m))) + seq![s.subrange(m + 1, s.len() as int)]
    } else {
        split_spaces(trim_ws(s))
    }
}

/// Index of the trailing marker in `s`, or its character length if none.
fn find_marker_str(s: &str) -> (i: usize)
    ensures
        i as int == find_marker(s@),
        i <= s@.len(),
{
    let n: usize = s.unicode_len();
    let mut at_boundary: bool = true;
    let mut i: usize = 0;
    while i < n
        invariant
            0 <= i <= n,
            n == s@.len(),
            at_boundary == (i == 0 || s@[i - 1] == ' '),
            forall|j: int| 0 <= j < i ==> !marker_boundary(s@, j),
        decreases n - i,
    {
        let c = s.get_char(i);
        if c == ':' && at_boundary {
            proof {
                lemma_find_marker_is(s@, i as int);
            }
            return i;
        }
        proof {
            assert(!marker_boundary(s@, i as int));
        }
        at_boundary = c == ' ';
        i = i + 1;
    }
    proof {
        lemma_find_marker_is(s@, n as int);
    }
    n
}

/// Splits `t` on single spaces, as `split_spaces` describes.
fn split_spaces_str(t: &str) -> (out: Vec<String>)
    ensures
        out.deep_view() == split_spaces(t@),
{
    let mut out: Vec<String> = Vec::new();
    let mut rem: String = String::from_str(t);
    loop
        invariant
            split_spaces(t@) == out.deep_view() + split_spaces(rem@),
        decreases rem@.len(),
    {
        let n: usize = rem.as_str().unicode_len();
        if n == 0 {
            proof {
                assert(out.deep_view() + split_spaces(rem@) =~= out.deep_view());
            }
            return out;
        }
        let f = find_in_str(rem.as_str(), ' ');
        proof {
            lemma_find_char(rem@, ' ');
        }
        if f < n {
            let ghost before = out.deep_view();
            let ghost old_rem = rem@;
            let head = String::from_str(rem.as_str().substring_char(0, f));
            let tail = String::from_str(rem.as_str().substring_char(f + 1, n));
            out.push(head);
            rem = tail;
            proof {
                assert(split_spaces(old_rem) == seq![old_rem.subrange(0, f as int)]
                    + split_spaces(old_rem.subrange(f + 1, old_rem.len() as int)));
                assert(out.deep_view() =~= before + seq![head@]);
                assert(out.deep_view() + split_spaces(rem@) =~= before + split_spaces(old_rem));
            }
        } else {
            let ghost before = out.deep_view();
            let ghost piece = rem@;
            assert(split_spaces(piece) == seq![piece]);
            out.push(rem);
            proof {
                assert(out.deep_view() =~= before + seq![piece]);
            }
            return out;
        }
    }
}

/// Splits parameter-region text into its parameters, as `parse_params`
/// describes.
pub fn split_params(s: &str) -> (params: Vec<String>)
    ensures
        params.deep_view() == parse_params(s@),
{
    let n: usize = s.unicode_len();
    let m = find_marker_str(s);
    if m < n {
        let pre = trim_str(s.substring_char(0, m));
        let mut params = split_spaces_str(pre.as_str());
        let post = String::from_str(s.substring_char(m + 1, n));
        let ghost before = params.deep_view();
        params.push(post);
        proof {
            assert(params.deep_view() =~= before + seq![s@.subrange(m as int + 1, n as int)]);
        }
        params
    } else {
        let pre = trim_str(s);
        split_spaces_str(pre.as_str())
    }
}

// ---------------------------------------------------------------------------
// The segment structure of one record body
// ---------------------------------------------------------------------------

/// The tag segment, when the text begins with the tag marker `@`:
/// everything between the marker and the first space.
pub open spec fn msg_tags_seg(s: Seq<char>) -> Option<Seq<char>> {
    if s.len() > 0 && s[0] == '@' {
        Some(take_until(s.skip(1), ' '))
    } else {
        None
    }
}

/// The text that follows the tag segment and its separating space.
pub open spec fn msg_after_tags(s: Seq<char>) -> Seq<char> {
    if s.len() > 0 && s[0] == '@' {
        rest_after(s.skip(1), ' ')
    } else {
        s
    }
}

/// The identity segment, when the text (tags already consumed) begins
/// with the source marker `:`.
pub open spec fn msg_source_seg(s: Seq<char>) -> Option<Seq<char>> {
    if s.len() > 0 && s[0] == ':' {
        Some(take_until(s.skip(1), ' '))
    } else {
        None
    }
}

/// The text that follows the identity segment and its separating space.
pub open spec fn msg_after_source(s: Seq<char>) -> Seq<char> {
    if s.len() > 0 && s[0] == ':' {
        rest_after(s.skip(1), ' ')
    } else {
        s
    }
}

/// The command token: everything up to the next space or the end.
pub open spec fn msg_command(s: Seq<char>) -> Seq<char> {
    take_until(s, ' ')
}

/// The parameter text that follows the command token.
pub open spec fn msg_params_text(s: Seq<char>) -> Seq<char> {
    rest_after(s, ' ')
}

/// If `s` begins with `marker`, splits off the segment between the marker
/// and the first space, returning the segment and the remaining text.
pub fn strip_marked_segment(s: &str, marker: char) -> (r: Option<(String, String)>)
    ensures
        (match r {
            Some(p) => s@.len() > 0 && s@[0] == marker && p.0@ == take_until(s@.skip(1), ' ')
                && p.1@ == rest_after(s@.skip(1), ' '),
            None => !(s@.len() > 0 && s@[0] == marker),
        }),
{
    let n: usize = s.unicode_len();
    if n > 0 && s.get_char(0) == marker {
        let tail = s.substring_char(1, n);
        proof {
            assert(tail@ =~= s@.skip(1));
        }
        let (seg, rest) = split_first_at(tail, ' ');
        Some((seg, rest))
    } else {
        None
    }
}

// ---------------------------------------------------------------------------
// Whitespace trimming
// ---------------------------------------------------------------------------

/// The whitespace characters a record may be padded with on the wire.
pub open spec fn is_ws(c: char) -> bool {
    c == ' ' || c == '\r' || c == '\n' || c == '\t'
}

pub open spec fn trim_front(s: Seq<char>) -> Seq<char>
    decreases s.len(),
{
    if s.len() > 0 && is_ws(s[0]) {
        trim_front(s.skip(1))
    } else {
        s
    }
}

pub open spec fn trim_back(s: Seq<char>) -> Seq<char>
    decreases s.len(),
{
    if s.len() > 0 && is_ws(s[s.len() - 1]) {
        trim_back(s.take(s.len() - 1))
    } else {
        s
    }
}

/// `s` with leading and trailing whitespace removed.
pub open spec fn trim_ws(s: Seq<char>) -> Seq<char> {
    trim_back(trim_front(s))
}

proof fn lemma_trim_front_is(s: Seq<char>, a: int)
    requires
        0 <= a <= s.len(),
        forall|j: int| 0 <= j < a ==> is_ws(s[j]),
        a < s.len() ==> !is_ws(s[a]),
    ensures
        trim_front(s) == s.skip(a),
    decreases a,
{
    if a == 0 {
        assert(s.skip(0) =~= s);
    } else {
        assert(is_ws(s[0]));
        assert forall|j: int| 0 <= j < a - 1 implies is_ws(s.skip(1)[j]) by {
            assert(s.skip(1)[j] == s[j + 1]);
        }
        if a - 1 < s.skip(1).len() {
            assert(s.skip(1)[a - 1] == s[a]);
        }
        lemma_trim_front_is(s.skip(1), a - 1);
        assert(s.skip(1).skip(a - 1) =~= s.skip(a));
    }
}

proof fn lemma_trim_back_is(s: Seq<char>, b: int)
    requires
        0 <= b <= s.len(),
        forall|j: int| b <= j < s.len() ==> is_ws(s[j]),
        b > 0 ==> !is_ws(s[b - 1]),
    ensures
        trim_back(s) == s.take(b),
    decreases s.len(),
{
    if b == s.len() {
        assert(s.take(b) =~= s);
    } else {
        assert(is_ws(s[s.len() - 1]));
        let t = s.take(s.len() - 1);
        assert forall|j: int| b <= j < t.len() implies is_ws(t[j]) by {
            assert(t[j] == s[j]);
        }
        if b > 0 {
            assert(t[b - 1] == s[b - 1]);
        }
        lemma_trim_back_is(t, b);
        assert(t.take(b) =~= s.take(b));
    }
}

fn is_ws_char(c: char) -> (b: bool)
    ensures
        b == is_ws(c),
{
    c == ' ' || c == '\r' || c == '\n' || c == '\t'
}

/// `s` with leading and trailing whitespace removed.
pub fn trim_str(s: &str) -> (r: String)
    ensures
        r@ == trim_ws(s@),
{
    let n: usize = s.unicode_len();
    let mut a: usize = 0;
    while a < n && is_ws_char(s.get_char(a))
        invariant
            0 <= a <= n,
            n == s@.len(),
            forall|j: int| 0 <= j < a ==> is_ws(s@[j]),
        decreases n - a,
    {
        a = a + 1;
    }
    let mut b: usize = n;
    while b > a && is_ws_char(s.get_char(b - 1))
        invariant
            a <= b <= n,
            n == s@.len(),
            forall|j: int| b <= j < n ==> is_ws(s@[j]),
        decreases b,
    {
        b = b - 1;
    }
    proof {
        lemma_trim_front_is(s@, a as int);
        let t = s@.skip(a as int);
        assert forall|j: int| b - a <= j < t.len() implies is_ws(t[j]) by {
            assert(t[j] == s@[j + a]);
        }
        if b > a {
            assert(t[b - a - 1] == s@[b - 1 as int]);
        }
        lemma_trim_back_is(t, b - a as int);
        assert(t.take(b - a as int) =~= s@.subrange(a as int, b as int));
    }
    String::from_str(s.substring_char(a, b))
}

// ---------------------------------------------------------------------------
// Lexicographic order on character sequences
// ---------------------------------------------------------------------------

/// Strict lexicographic order by code point, the order tag keys are kept in.
pub open spec fn lex_lt(a: Seq<char>, b: Seq<char>) -> bool
    decreases a.len(),
{
    if b.len() == 0 {
        false
    } else if a.len() == 0 {
        true
    } else if a[0] == b[0] {
        lex_lt(a.skip(1), b.skip(1))
    } else {
        (a[0] as u32) < (b[0] as u32)
    }
}

proof fn lemma_lex_lt_skip(a: Seq<char>, b: Seq<char>, i: int)
    requires
        0 <= i <= a.len(),
        i <= b.len(),
        forall|j: int| 0 <= j < i ==> a[j] == b[j],
    ensures
        lex_lt(a, b) == lex_lt(a.skip(i), b.skip(i)),
    decreases i,
{
    if i == 0 {
        assert(a.skip(0) =~= a);
        assert(b.skip(0) =~= b);
    } else {
        assert(a[0] == b[0]);
        assert(a.len() > 0 && b.len() > 0);
        assert forall|j: int| 0 <= j < i - 1 implies a.skip(1)[j] == b.skip(1)[j] by {
            assert(a.skip(1)[j] == a[j + 1]);
            assert(b.skip(1)[j] == b[j + 1]);
        }
        lemma_lex_lt_skip(a.skip(1), b.skip(1), i - 1);
        assert(a.skip(1).skip(i - 1) =~= a.skip(i));
        assert(b.skip(1).skip(i - 1) =~= b.skip(i));
    }
}

/// `lex_lt` is a strict total order: exactly one of `a < b`, `b < a`,
/// `a == b` holds.
pub proof fn lemma_lex_lt_total(a: Seq<char>, b: Seq<char>)
    ensures
        lex_lt(a, b) ==> !lex_lt(b, a),
        lex_lt(a, b) ==> a != b,
        !lex_lt(a, b) && !lex_lt(b, a) ==> a == b,
    decreases a.len(),
{
    if a.len() > 0 && b.len() > 0 {
        if a[0] == b[0] {
            lemma_lex_lt_total(a.skip(1), b.skip(1));
            if !lex_lt(a, b) && !lex_lt(b, a) {
                assert(a.skip(1) == b.skip(1));
                assert forall|k: int| 0 <= k < a.len() implies a[k] == b[k] by {
                    if k > 0 {
                        assert(a.skip(1)[k - 1] == a[k]);
                        assert(b.skip(1)[k - 1] == b[k]);
                    }
                }
                assert(a =~= b);
            }
            if lex_lt(a, b) {
                assert(a.skip(1) != b.skip(1));
                assert(a != b);
            }
        } else {
            assert((a[0] as u32) != (b[0] as u32)) by {
                if (a[0] as u32) == (b[0] as u32) {
                    vstd::utf8::char_u32_cast(a[0], a[0] as u32);
                    vstd::utf8::char_u32_cast(b[0], b[0] as u32);
                }
            }
        }
    }
}

/// `lex_lt` is transitive.
pub proof fn lemma_lex_lt_trans(a: Seq<char>, b: Seq<char>, c: Seq<char>)
    requires
        lex_lt(a, b),
        lex_lt(b, c),
    ensures
        lex_lt(a, c),
    decreases a.len(),
{
    if a.len() > 0 && b.len() > 0 && c.len() > 0 {
        if a[0] == b[0] && b[0] == c[0] {
            lemma_lex_lt_trans(a.skip(1), b.skip(1), c.skip(1));
        }
    }
}

/// Strict lexicographic comparison of two strings.
pub fn str_lt(a: &str, b: &str) -> (r: bool)
    ensures
        r == lex_lt(a@, b@),
{
    let na: usize = a.unicode_len();
    let nb: usize = b.unicode_len();
    let mut i: usize = 0;
    while i < na && i < nb
        invariant
            0 <= i <= na,
            i <= nb,
            na == a@.len(),
            nb == b@.len(),
            forall|j: int| 0 <= j < i ==> a@[j] == b@[j],
        decreases na - i,
    {
        let ca = a.get_char(i);
        let cb = b.get_char(i);
        if ca != cb {
            proof {
                lemma_lex_lt_skip(a@, b@, i as int);
                assert(a@.skip(i as int)[0] == ca);
                assert(b@.skip(i as int)[0] == cb);
            }
            return (ca as u32) < (cb as u32);
        }
        i = i + 1;
    }
    proof {
        lemma_lex_lt_skip(a@, b@, i as int);
        assert(a@.skip(i as int).len() == na - i);
        assert(b@.skip(i as int).len() == nb - i);
    }
    na < nb
}

// ---------------------------------------------------------------------------
// Building wire text
// ---------------------------------------------------------------------------

/// Relies on String::push: it appends exactly the one character.
#[verifier::external_body]
pub(crate) fn push_char(s: &mut String, c: char)
    ensures
        final(s)@ == old(s)@ + seq![c],
{
    s.push(c);
}

/// The wire text of a parameter list: each parameter is preceded by one
/// space, plus the trailing marker when the parameter contains a space.
pub open spec fn render_params(params: Seq<Seq<char>>) -> Seq<char>
    decreases params.len(),
{
    if params.len() == 0 {
        Seq::empty()
    } else {
        seq![' '] + (if no_char(params[0], ' ') {
            Seq::<char>::empty()
        } else {
            seq![':']
        }) + params[0] + render_params(params.skip(1))
    }
}

/// Appends the wire text of `params` to `s`.
pub fn append_params(s: &mut String, params: &Vec<String>)
    ensures
        final(s)@ == old(s)@ + render_params(params.deep_view()),
{
    let ghost base = s@;
    let ghost dv = params.deep_view();
    proof {
        assert(dv.skip(0) =~= dv);
    }
    let mut i: usize = 0;
    while i < params.len()
        invariant
            0 <= i <= params.len(),
            dv == params.deep_view(),
            dv.len() == params.len(),
            base + render_params(dv) == s@ + render_params(dv.skip(i as int)),
        decreases params.len() - i,
    {
        let ghost before = s@;
        let p = &params[i];
        proof {
            assert(dv[i as int] == p@);
        }
        push_char(s, ' ');
        let f = find_in_str(p.as_str(), ' ');
        let has_space = f < p.as_str().unicode_len();
        proof {
            lemma_find_char(p@, ' ');
            lemma_no_char(p@, ' ');
        }
        if has_space {
            push_char(s, ':');
        }
        s.append(p.as_str());
        proof {
            let tailp = dv.skip(i as int);
            assert(tailp[0] == dv[i as int]);
            assert(tailp.skip(1) =~= dv.skip(i + 1));
            assert(render_params(tailp) == seq![' '] + (if no_char(dv[i as int], ' ') {
                Seq::<char>::empty()
            } else {
                seq![':']
            }) + dv[i as int] + render_params(dv.skip(i + 1)));
            assert(s@ + render_params(dv.skip(i + 1)) =~= before + render_params(tailp));
        }
        i = i + 1;
    }
    proof {
        assert(render_params(dv.skip(dv.len() as int)) =~= render_params(Seq::<Seq<char>>::empty()));
        assert(dv.skip(dv.len() as int) =~= Seq::<Seq<char>>::empty());
        assert(s@ =~= base + render_params(dv));
    }
}

/// `c` is absent from `s` exactly when the search runs off the end.
pub proof fn lemma_no_char(s: Seq<char>, c: char)
    ensures
        no_char(s, c) <==> find_char(s, c) == s.len(),
{
    lemma_find_char(s, c);
    if no_char(s, c) {
        lemma_find_char_is(s, c, s.len() as int);
    }
}

// ---------------------------------------------------------------------------
// The parameter round trip
// ---------------------------------------------------------------------------

/// A parameter list that the encoder can represent faithfully: every
/// parameter but the last is non-empty, has no space and does not begin
/// with the trailing marker; the last may contain spaces, but if it does
/// not, it too must be non-empty and not begin with the marker.  Further,
/// no whitespace may stand where decoding trims it: at the start of the
/// first parameter, at the end of a space-free last parameter, and at the
/// end of the parameter standing before a space-carrying last one.
pub open spec fn params_encodable(params: Seq<Seq<char>>) -> bool {
    &&& (forall|i: int|
        0 <= i < params.len() ==> (if i < params.len() - 1 {
            params[i].len() > 0 && no_char(params[i], ' ') && params[i][0] != ':'
        } else {
            no_char(params[i], ' ') ==> (params[i].len() > 0 && params[i][0] != ':')
        }))
    &&& (params.len() > 0 && no_char(params[0], ' ') ==> !is_ws(params[0][0]))
    &&& (params.len() > 0 ==> ({
        let last = params[params.len() - 1];
        if no_char(last, ' ') {
            !is_ws(last[last.len() - 1])
        } else {
            params.len() >= 2 ==> !is_ws(
                params[params.len() - 2][params[params.len() - 2].len() - 1],
            )
        }
    }))
}

/// The pieces joined by single spaces.
pub open spec fn join_spaces(ts: Seq<Seq<char>>) -> Seq<char>
    decreases ts.len(),
{
    if ts.len() == 0 {
        Seq::empty()
    } else if ts.len() == 1 {
        ts[0]
    } else {
        ts[0] + seq![' '] + join_spaces(ts.skip(1))
    }
}

/// Splitting a join of non-empty, space-free pieces gives them back.
proof fn lemma_split_join(ts: Seq<Seq<char>>)
    requires
        forall|i: int| 0 <= i < ts.len() ==> ts[i].len() > 0 && no_char(ts[i], ' '),
    ensures
        split_spaces(join_spaces(ts)) == ts,
    decreases ts.len(),
{
    if ts.len() == 0 {
    } else if ts.len() == 1 {
        lemma_no_char(ts[0], ' ');
        assert(split_spaces(ts[0]) == seq![ts[0]]);
        assert(seq![ts[0]] =~= ts);
    } else {
        let t0 = ts[0];
        let rest = seq![' '] + join_spaces(ts.skip(1));
        let j = join_spaces(ts);
        assert(j =~= t0 + rest);
        lemma_no_char(t0, ' ');
        lemma_find_char_append(t0, rest, ' ');
        assert(rest[0] == ' ');
        assert(find_char(rest, ' ') == 0);
        let f = find_char(j, ' ');
        assert(f == t0.len());
        assert(j.subrange(0, f) =~= t0);
        assert(j.subrange(f + 1, j.len() as int) =~= join_spaces(ts.skip(1)));
        assert forall|i: int|
            0 <= i < ts.skip(1).len() implies ts.skip(1)[i].len() > 0 && no_char(
            ts.skip(1)[i],
            ' ',
        ) by {
            assert(ts.skip(1)[i] == ts[i + 1]);
        }
        lemma_split_join(ts.skip(1));
        assert(split_spaces(j) == seq![t0] + ts.skip(1));
        assert(seq![t0] + ts.skip(1) =~= ts);
    }
}

/// The join of non-empty, space-free pieces that do not begin with the
/// marker holds no trailing marker.
proof fn lemma_join_no_marker(ts: Seq<Seq<char>>)
    requires
        forall|i: int|
            0 <= i < ts.len() ==> ts[i].len() > 0 && no_char(ts[i], ' ') && ts[i][0] != ':',
    ensures
        find_marker(join_spaces(ts)) == join_spaces(ts).len(),
    decreases ts.len(),
{
    if ts.len() == 0 {
    } else if ts.len() == 1 {
        let t = ts[0];
        lemma_no_char(t, ' ');
        assert(find_marker(t) == t.len());
    } else {
        let t0 = ts[0];
        let tailj = join_spaces(ts.skip(1));
        let j = join_spaces(ts);
        assert(j =~= t0 + (seq![' '] + tailj));
        lemma_no_char(t0, ' ');
        lemma_find_char_append(t0, seq![' '] + tailj, ' ');
        assert((seq![' '] + tailj)[0] == ' ');
        assert(find_char(seq![' '] + tailj, ' ') == 0);
        let f = find_char(j, ' ');
        assert(f == t0.len());
        assert(j[0] == t0[0]);
        assert(j.subrange(f + 1, j.len() as int) =~= tailj);
        assert forall|i: int|
            0 <= i < ts.skip(1).len() implies ts.skip(1)[i].len() > 0 && no_char(ts.skip(1)[i], ' ')
            && ts.skip(1)[i][0] != ':' by {
            assert(ts.skip(1)[i] == ts[i + 1]);
        }
        lemma_join_no_marker(ts.skip(1));
        assert(find_marker(j) == f + 1 + find_marker(tailj));
    }
}

/// The join of non-empty pieces starts and ends where its first and last
/// pieces do.
proof fn lemma_join_ends(ts: Seq<Seq<char>>)
    requires
        ts.len() > 0,
        forall|i: int| 0 <= i < ts.len() ==> ts[i].len() > 0,
    ensures
        join_spaces(ts).len() > 0,
        join_spaces(ts)[0] == ts[0][0],
        join_spaces(ts)[join_spaces(ts).len() - 1] == ts[ts.len() - 1][ts[ts.len() - 1].len() - 1],
    decreases ts.len(),
{
    if ts.len() > 1 {
        assert forall|i: int| 0 <= i < ts.skip(1).len() implies ts.skip(1)[i].len() > 0 by {
            assert(ts.skip(1)[i] == ts[i + 1]);
        }
        lemma_join_ends(ts.skip(1));
        let j = join_spaces(ts);
        let tailj = join_spaces(ts.skip(1));
        assert(j[0] == ts[0][0]);
        assert(j[j.len() - 1] == tailj[tailj.len() - 1]);
        assert(ts.skip(1)[ts.skip(1).len() - 1] == ts[ts.len() - 1]);
    }
}

/// Trimming changes nothing when neither end is whitespace.
proof fn lemma_trim_noop(s: Seq<char>)
    requires
        s.len() > 0 ==> !is_ws(s[0]),
        s.len() > 0 ==> !is_ws(s[s.len() - 1]),
    ensures
        trim_ws(s) == s,
{
}

/// Trimming the pre-marker text removes exactly the separating space.
proof fn lemma_trim_pre_marker(j: Seq<char>)
    requires
        j.len() > 0,
        !is_ws(j[0]),
        !is_ws(j[j.len() - 1]),
    ensures
        trim_ws(j + seq![' ']) == j,
{
    let s = j + seq![' '];
    assert(s[0] == j[0]);
    assert(trim_front(s) == s);
    assert(s[s.len() - 1] == ' ');
    assert(s.take(s.len() - 1) =~= j);
    assert(trim_back(j) == j);
    assert(trim_back(s) == trim_back(j));
}

/// The wire text of a non-empty parameter list, without its leading space.
pub open spec fn params_body(params: Seq<Seq<char>>) -> Seq<char>
    recommends
        params.len() > 0,
{
    (if no_char(params[0], ' ') {
        Seq::<char>::empty()
    } else {
        seq![':']
    }) + params[0] + render_params(params.skip(1))
}

pub proof fn lemma_render_params_head(params: Seq<Seq<char>>)
    requires
        params.len() > 0,
    ensures
        render_params(params) == seq![' '] + params_body(params),
{
    assert(render_params(params) =~= seq![' '] + params_body(params));
}

/// When every parameter is rendered bare, the body is their plain join.
proof fn lemma_body_is_join(ts: Seq<Seq<char>>)
    requires
        ts.len() > 0,
        forall|i: int| 0 <= i < ts.len() ==> no_char(ts[i], ' '),
    ensures
        params_body(ts) == join_spaces(ts),
    decreases ts.len(),
{
    if ts.len() == 1 {
        assert(render_params(ts.skip(1)) == Seq::<char>::empty());
        assert(params_body(ts) =~= ts[0]);
    } else {
        assert forall|i: int| 0 <= i < ts.skip(1).len() implies no_char(ts.skip(1)[i], ' ') by {
            assert(ts.skip(1)[i] == ts[i + 1]);
        }
        lemma_render_params_head(ts.skip(1));
        lemma_body_is_join(ts.skip(1));
        assert(params_body(ts) =~= ts[0] + seq![' '] + join_spaces(ts.skip(1)));
        assert(join_spaces(ts) =~= ts[0] + seq![' '] + join_spaces(ts.skip(1)));
    }
}

/// When the last parameter carries the marker, the body is the join of
/// the others, the separating space, the marker, and that parameter.
proof fn lemma_body_marked(ts: Seq<Seq<char>>)
    requires
        ts.len() >= 2,
        forall|i: int| 0 <= i < ts.len() - 1 ==> no_char(ts[i], ' '),
        !no_char(ts[ts.len() - 1], ' '),
    ensures
        params_body(ts) == join_spaces(ts.take(ts.len() - 1)) + seq![' '] + seq![':'] + ts[ts.len()
            - 1],
    decreases ts.len(),
{
    let k = ts.len();
    let last = ts[k - 1];
    if k == 2 {
        lemma_render_params_head(ts.skip(1));
        assert(ts.skip(1)[0] == ts[1]);
        assert(render_params(ts.skip(1).skip(1)) == Seq::<char>::empty()) by {
            assert(ts.skip(1).skip(1).len() == 0);
        }
        assert(params_body(ts.skip(1)) =~= seq![':'] + last);
        assert(join_spaces(ts.take(1)) =~= ts[0]);
        assert(params_body(ts) =~= ts[0] + seq![' '] + (seq![':'] + last));
        assert(join_spaces(ts.take(1)) + seq![' '] + seq![':'] + last =~= ts[0] + seq![' '] + (
        seq![':'] + last));
    } else {
        let tail = ts.skip(1);
        assert forall|i: int| 0 <= i < tail.len() - 1 implies no_char(tail[i], ' ') by {
            assert(tail[i] == ts[i + 1]);
        }
        assert(tail[tail.len() - 1] == last);
        lemma_render_params_head(tail);
        lemma_body_marked(tail);
        let front = ts.take(k - 1);
        assert(front.len() >= 2);
        assert(tail.take(tail.len() - 1) =~= front.skip(1));
        assert(front[0] == ts[0]);
        assert(join_spaces(front) == front[0] + seq![' '] + join_spaces(front.skip(1)));
        assert(params_body(ts) =~= ts[0] + seq![' '] + params_body(tail));
        assert(params_body(ts) =~= (ts[0] + seq![' '] + join_spaces(front.skip(1))) + seq![' ']
            + seq![':'] + last);
        assert(params_body(ts) =~= join_spaces(front) + seq![' '] + seq![':'] + last);
    }
}

/// Law: parsing the rendered text of an encodable parameter list yields
/// exactly that list.
pub proof fn lemma_params_round_trip(params: Seq<Seq<char>>)
    requires
        params.len() > 0,
        params_encodable(params),
    ensures
        parse_params(params_body(params)) == params,
{
    let k = params.len();
    let last = params[k - 1];
    let body = params_body(params);
    if no_char(last, ' ') {
        // Every parameter is rendered bare.
        assert forall|i: int|
            0 <= i < params.len() implies params[i].len() > 0 && no_char(params[i], ' ')
            && params[i][0] != ':' by {}
        lemma_body_is_join(params);
        let j = join_spaces(params);
        lemma_join_no_marker(params);
        lemma_join_ends(params);
        assert(!is_ws(j[0]));
        assert(!is_ws(j[j.len() - 1]));
        lemma_trim_noop(j);
        lemma_split_join(params);
        assert(parse_params(body) == params);
    } else {
        if k == 1 {
            // The body is the marker and the parameter alone.
            assert(render_params(params.skip(1)) == Seq::<char>::empty());
            assert(body =~= seq![':'] + last);
            assert(marker_boundary(body, 0));
            lemma_find_marker_is(body, 0);
            assert(body.subrange(0, 0) =~= Seq::<char>::empty());
            lemma_trim_noop(Seq::<char>::empty());
            assert(split_spaces(Seq::<char>::empty()) == Seq::<Seq<char>>::empty());
            assert(body.subrange(1, body.len() as int) =~= last);
            assert(parse_params(body) =~= seq![last]);
            assert(seq![last] =~= params);
        } else {
            // The parameters before the marker form a join.
            assert forall|i: int|
                0 <= i < k - 1 implies params[i].len() > 0 && no_char(params[i], ' ')
                && params[i][0] != ':' by {}
            lemma_body_marked(params);
            let front = params.take(k - 1);
            assert(front.len() == k - 1 >= 1);
            assert forall|i: int|
                0 <= i < front.len() implies front[i].len() > 0 && no_char(front[i], ' ')
                && front[i][0] != ':' by {
                assert(front[i] == params[i]);
            }
            let jf = join_spaces(front);
            lemma_join_ends(front);
            lemma_join_no_marker(front);
            lemma_find_marker(jf);
            assert(body =~= jf + seq![' '] + seq![':'] + last);
            let m = jf.len() as int + 1;
            assert forall|j: int| 0 <= j < m implies !marker_boundary(body, j) by {
                if j < jf.len() {
                    assert(body[j] == jf[j]);
                    if j > 0 {
                        assert(body[j - 1] == jf[j - 1]);
                    }
                    assert(!marker_boundary(jf, j));
                } else {
                    assert(body[j] == ' ');
                }
            }
            assert(body[m] == ':');
            assert(body[m - 1] == ' ');
            assert(marker_boundary(body, m));
            lemma_find_marker_is(body, m);
            assert(body.subrange(0, m) =~= jf + seq![' ']);
            assert(body.subrange(m + 1, body.len() as int) =~= last);
            assert(!is_ws(jf[0]));
            assert(!is_ws(jf[jf.len() - 1])) by {
                assert(front[front.len() - 1] == params[k - 2]);
            }
            lemma_trim_pre_marker(jf);
            lemma_split_join(front);
            assert(parse_params(body) == front + seq![last]);
            assert(front + seq![last] =~= params);
        }
    }
}

} // verus!
