//! The persistence format: a pretty-printed JSON array with one task
//! object per line, for example
//!
//! ```text
//! [
//! {"name":"buy milk","status":"waiting!"},
//! {"name":"call home","status":"complete"}
//! ]
//! ```
//!
//! An empty list is written `[]`. Inside a string, `"` and `\` are written
//! `\"` and `\\`, and control characters are written `\u00XX` with two
//! lower-case hex digits; every other character stands for itself.
//!
//! The encoder writes exactly this canonical form, and the decoder accepts
//! exactly this canonical form, so decoding is proved to be a two-sided
//! inverse of encoding: the decoder succeeds on a text if and only if it is
//! the encoding of some task list, and then returns exactly that list.

use vstd::prelude::*;

use crate::task::ToDo;
use crate::task::TaskView;
use crate::task::views;
use crate::text::push_all;

verus! {

/// One lower-case hex digit.
pub open spec fn hex_digit(n: int) -> char {
    if n == 0 {
        '0'
    } else if n == 1 {
        '1'
    } else if n == 2 {
        '2'
    } else if n == 3 {
        '3'
    } else if n == 4 {
        '4'
    } else if n == 5 {
        '5'
    } else if n == 6 {
        '6'
    } else if n == 7 {
        '7'
    } else if n == 8 {
        '8'
    } else if n == 9 {
        '9'
    } else if n == 10 {
        'a'
    } else if n == 11 {
        'b'
    } else if n == 12 {
        'c'
    } else if n == 13 {
        'd'
    } else if n == 14 {
        'e'
    } else {
        'f'
    }
}

/// Whether a character must be escaped inside a JSON string.
pub open spec fn is_special(c: char) -> bool {
    c == '"' || c == '\\' || (c as u32) < 32
}

/// The canonical escape of one character.
pub open spec fn escape_char(c: char) -> Seq<char> {
    if c == '"' {
        seq!['\\', '"']
    } else if c == '\\' {
        seq!['\\', '\\']
    } else if (c as u32) < 32 {
        seq!['\\', 'u', '0', '0', hex_digit((c as u32 / 16) as int), hex_digit((c as u32 % 16) as int)]
    } else {
        seq![c]
    }
}

/// The canonical escape of a text.
pub open spec fn escape(s: Seq<char>) -> Seq<char>
    decreases s.len(),
{
    if s.len() == 0 {
        Seq::empty()
    } else {
        escape_char(s[0]) + escape(s.skip(1))
    }
}

/// `{"name":"` — the opening of one task object.
pub open spec fn rec_open() -> Seq<char> {
    seq!['{', '"', 'n', 'a', 'm', 'e', '"', ':', '"']
}

/// `,"status":"` — between the name's closing quote and the status.
pub open spec fn rec_mid() -> Seq<char> {
    seq![',', '"', 's', 't', 'a', 't', 'u', 's', '"', ':', '"']
}

/// The encoding of one task: `{"name":"<name>","status":"<status>"}`.
pub open spec fn json_task(t: TaskView) -> Seq<char> {
    rec_open() + escape(t.name) + seq!['"'] + rec_mid() + escape(t.status) + seq!['"', '}']
}

/// The encodings of the tasks, joined with `,` and a line break.
pub open spec fn json_inner(ts: Seq<TaskView>) -> Seq<char>
    decreases ts.len(),
{
    if ts.len() == 0 {
        Seq::empty()
    } else if ts.len() == 1 {
        json_task(ts[0])
    } else {
        json_task(ts[0]) + seq![',', '\n'] + json_inner(ts.skip(1))
    }
}

/// The encoding of a whole task list.
pub open spec fn json_list(ts: Seq<TaskView>) -> Seq<char> {
    if ts.len() == 0 {
        seq!['[', ']']
    } else {
        seq!['[', '\n'] + json_inner(ts) + seq!['\n', ']']
    }
}

/// Escaping distributes over concatenation.
pub proof fn lemma_escape_add(a: Seq<char>, b: Seq<char>)
    ensures
        escape(a + b) == escape(a) + escape(b),
    decreases a.len(),
{
    if a.len() == 0 {
        assert(a + b =~= b);
        assert(escape(a) + escape(b) =~= escape(b));
    } else {
        assert((a + b).skip(1) =~= a.skip(1) + b);
        lemma_escape_add(a.skip(1), b);
        assert((a + b).len() != 0);
        assert((a + b)[0] == a[0]);
        assert(escape(a + b) == escape_char(a[0]) + (escape(a.skip(1)) + escape(b)));
        assert(escape_char(a[0]) + (escape(a.skip(1)) + escape(b)) =~= (escape_char(a[0])
            + escape(a.skip(1))) + escape(b));
    }
}

/// The escape of one more character comes after the escape of what stood
/// before it.
pub proof fn lemma_escape_snoc(s: Seq<char>, c: char)
    ensures
        escape(s.push(c)) == escape(s) + escape_char(c),
{
    lemma_escape_add(s, seq![c]);
    assert(s.push(c) =~= s + seq![c]);
    assert(seq![c].skip(1) =~= Seq::<char>::empty());
    assert(escape(seq![c]) == escape_char(seq![c][0]) + escape(seq![c].skip(1)));
    assert(escape_char(c) + escape(Seq::<char>::empty()) =~= escape_char(c));
}

/// Exactly `hex_digit`, executably.
fn hex_digit_exec(n: u32) -> (r: char)
    requires
        n < 16,
    ensures
        r == hex_digit(n as int),
{
    if n == 0 {
        '0'
    } else if n == 1 {
        '1'
    } else if n == 2 {
        '2'
    } else if n == 3 {
        '3'
    } else if n == 4 {
        '4'
    } else if n == 5 {
        '5'
    } else if n == 6 {
        '6'
    } else if n == 7 {
        '7'
    } else if n == 8 {
        '8'
    } else if n == 9 {
        '9'
    } else if n == 10 {
        'a'
    } else if n == 11 {
        'b'
    } else if n == 12 {
        'c'
    } else if n == 13 {
        'd'
    } else if n == 14 {
        'e'
    } else {
        'f'
    }
}

/// `{"name":"` as characters.
fn lit_rec_open() -> (r: Vec<char>)
    ensures
        r@ == rec_open(),
{
    let mut v: Vec<char> = Vec::new();
    v.push('{');
    v.push('"');
    v.push('n');
    v.push('a');
    v.push('m');
    v.push('e');
    v.push('"');
    v.push(':');
    v.push('"');
    proof {
        assert(v@ =~= rec_open());
    }
    v
}

/// `,"status":"` as characters.
fn lit_rec_mid() -> (r: Vec<char>)
    ensures
        r@ == rec_mid(),
{
    let mut v: Vec<char> = Vec::new();
    v.push(',');
    v.push('"');
    v.push('s');
    v.push('t');
    v.push('a');
    v.push('t');
    v.push('u');
    v.push('s');
    v.push('"');
    v.push(':');
    v.push('"');
    proof {
        assert(v@ =~= rec_mid());
    }
    v
}

/// Appends the canonical escape of one character.
fn push_escaped_char(out: &mut Vec<char>, c: char)
    ensures
        final(out)@ == old(out)@ + escape_char(c),
{
    if c == '"' {
        out.push('\\');
        out.push('"');
    } else if c == '\\' {
        out.push('\\');
        out.push('\\');
    } else if (c as u32) < 32 {
        out.push('\\');
        out.push('u');
        out.push('0');
        out.push('0');
        out.push(hex_digit_exec((c as u32) / 16));
        out.push(hex_digit_exec((c as u32) % 16));
    } else {
        out.push(c);
    }
    proof {
        assert(out@ =~= old(out)@ + escape_char(c));
    }
}

/// Appends the canonical escape of a text.
fn push_escaped(out: &mut Vec<char>, s: &Vec<char>)
    ensures
        final(out)@ == old(out)@ + escape(s@),
{
    let mut i: usize = 0;
    while i < s.len()
        invariant
            i <= s@.len(),
            out@ == old(out)@ + escape(s@.take(i as int)),
        decreases s@.len() - i,
    {
        proof {
            assert(escape(s@.take(0)) =~= Seq::<char>::empty());
            lemma_escape_snoc(s@.take(i as int), s@[i as int]);
            assert(s@.take(i as int).push(s@[i as int]) =~= s@.take(i + 1));
        }
        push_escaped_char(out, s[i]);
        i = i + 1;
        proof {
            assert(out@ =~= old(out)@ + escape(s@.take(i as int)));
        }
    }
    proof {
        assert(s@.take(s@.len() as int) =~= s@);
    }
}

/// Appends the encoding of one task.
fn push_task(out: &mut Vec<char>, t: &ToDo)
    ensures
        final(out)@ == old(out)@ + json_task(t@),
{
    let open = lit_rec_open();
    push_all(out, &open);
    let name_chars = crate::text::text_chars(t.name.as_str());
    push_escaped(out, &name_chars);
    out.push('"');
    let mid = lit_rec_mid();
    push_all(out, &mid);
    let status_chars = crate::text::text_chars(t.status.as_str());
    push_escaped(out, &status_chars);
    out.push('"');
    out.push('}');
    proof {
        assert(out@ =~= old(out)@ + json_task(t@));
    }
}

/// `json_inner` grows at the back one task at a time.
proof fn lemma_json_inner_snoc(ts: Seq<TaskView>, t: TaskView)
    ensures
        json_inner(ts.push(t)) == if ts.len() == 0 {
            json_task(t)
        } else {
            json_inner(ts) + seq![',', '\n'] + json_task(t)
        },
    decreases ts.len(),
{
    let u = ts.push(t);
    if ts.len() == 0 {
        assert(u.len() == 1);
        assert(u[0] == t);
    } else {
        assert(u[0] == ts[0]);
        assert(u.skip(1) =~= ts.skip(1).push(t));
        lemma_json_inner_snoc(ts.skip(1), t);
        if ts.len() == 1 {
            assert(json_inner(u) == json_task(ts[0]) + seq![',', '\n'] + json_task(t));
        } else {
            assert(json_inner(u) == json_task(ts[0]) + seq![',', '\n'] + (json_inner(ts.skip(1))
                + seq![',', '\n'] + json_task(t)));
            assert(json_task(ts[0]) + seq![',', '\n'] + (json_inner(ts.skip(1)) + seq![',', '\n']
                + json_task(t)) =~= (json_task(ts[0]) + seq![',', '\n'] + json_inner(ts.skip(1)))
                + seq![',', '\n'] + json_task(t));
        }
    }
}

/// The canonical encoding of a task list, as characters.
pub fn encode_tasks(list: &Vec<ToDo>) -> (r: Vec<char>)
    ensures
        r@ == json_list(views(list@)),
{
    let mut out: Vec<char> = Vec::new();
    out.push('[');
    if list.len() == 0 {
        out.push(']');
        proof {
            assert(views(list@).len() == 0);
            assert(out@ =~= json_list(views(list@)));
        }
        return out;
    }
    out.push('\n');
    let mut i: usize = 0;
    while i < list.len()
        invariant
            i <= list@.len(),
            list@.len() > 0,
            i == 0 ==> out@ =~= seq!['[', '\n'],
            i > 0 ==> out@ =~= seq!['[', '\n'] + json_inner(views(list@.take(i as int))),
        decreases list@.len() - i,
    {
        let ghost prev = views(list@.take(i as int));
        if i > 0 {
            out.push(',');
            out.push('\n');
        }
        push_task(&mut out, &list[i]);
        proof {
            assert(views(list@.take(i + 1)) =~= prev.push(list@[i as int]@));
            lemma_json_inner_snoc(prev, list@[i as int]@);
            assert(prev.len() == i);
        }
        i = i + 1;
        proof {
            assert(out@ =~= seq!['[', '\n'] + json_inner(views(list@.take(i as int))));
        }
    }
    out.push('\n');
    out.push(']');
    proof {
        assert(list@.take(list@.len() as int) =~= list@);
        assert(views(list@).len() > 0);
        assert(out@ =~= json_list(views(list@)));
    }
    out
}

/// Whether the text from `p` on is a canonically escaped string, its
/// closing quote, and then `rest`.
pub open spec fn strs_from(v: Seq<char>, p: int, s: Seq<char>, rest: Seq<char>) -> bool {
    v.skip(p) == escape(s) + seq!['"'] + rest
}

/// Whether the text from `p` on is the encoding of `t` and then `rest`.
pub open spec fn task_from(v: Seq<char>, p: int, t: TaskView, rest: Seq<char>) -> bool {
    v.skip(p) == json_task(t) + rest
}

/// When the text from `p` on is `a` and then `b`, the text holds `a` at
/// `p` and `b` right after it.
proof fn lemma_skip_of_add(v: Seq<char>, p: int, a: Seq<char>, b: Seq<char>)
    requires
        0 <= p <= v.len(),
        v.skip(p) == a + b,
    ensures
        p + a.len() <= v.len(),
        v.subrange(p, p + a.len() as int) == a,
        v.skip(p + a.len() as int) == b,
{
    assert(v.skip(p).len() == v.len() - p);
    assert(v.subrange(p, p + a.len() as int) =~= a) by {
        assert forall|i: int| 0 <= i < a.len() implies v[p + i] == a[i] by {
            assert(v.skip(p)[i] == v[p + i]);
            assert((a + b)[i] == a[i]);
        }
    }
    assert(v.skip(p + a.len() as int) =~= b) by {
        assert forall|i: int| 0 <= i < b.len() implies v[p + a.len() + i] == b[i] by {
            assert(v.skip(p)[a.len() + i] == v[p + a.len() + i]);
            assert((a + b)[a.len() + i] == b[i]);
        }
    }
}

/// Shape facts about the escape of one character.
proof fn lemma_escape_char_facts(c: char)
    ensures
        1 <= escape_char(c).len(),
        escape_char(c)[0] != '"',
        32 <= escape_char(c)[0] as u32,
        is_special(c) <==> escape_char(c)[0] == '\\',
        !is_special(c) ==> escape_char(c) == seq![c],
        is_special(c) ==> 2 <= escape_char(c).len(),
        c == '"' ==> escape_char(c)[1] == '"',
        c == '\\' ==> escape_char(c)[1] == '\\',
        is_special(c) && c != '"' && c != '\\' ==> (c as u32) < 32 && escape_char(c)[1] == 'u',
        is_special(c) && escape_char(c)[1] == '"' ==> c == '"',
        is_special(c) && escape_char(c)[1] == '\\' ==> c == '\\',
        is_special(c) && escape_char(c)[1] == 'u' ==> (c as u32) < 32,
{
}

/// Distinct hex values have distinct digits.
proof fn lemma_hex_digit_injective(m: int, n: int)
    requires
        0 <= m < 16,
        0 <= n < 16,
        hex_digit(m) == hex_digit(n),
    ensures
        m == n,
{
}

/// Under a decomposition hypothesis, the unread input is the escape of
/// the unread characters.
proof fn lemma_string_remaining(
    v: Seq<char>,
    start: int,
    pos: int,
    acc: Seq<char>,
    s: Seq<char>,
    rest: Seq<char>,
)
    requires
        0 <= start <= pos <= v.len(),
        v.subrange(start, pos) == escape(acc),
        strs_from(v, start, s, rest),
        acc.len() <= s.len(),
        acc == s.take(acc.len() as int),
    ensures
        v.skip(pos) == escape(s.skip(acc.len() as int)) + (seq!['"'] + rest),
{
    let k = acc.len() as int;
    lemma_escape_add(s.take(k), s.skip(k));
    assert(s.take(k) + s.skip(k) =~= s);
    assert(escape(s) == escape(acc) + escape(s.skip(k)));
    assert(escape(s) + seq!['"'] + rest =~= escape(acc) + (escape(s.skip(k)) + (seq!['"']
        + rest)));
    lemma_skip_of_add(v, start, escape(acc), escape(s.skip(k)) + (seq!['"'] + rest));
    assert(pos == start + escape(acc).len());
}

/// A decomposition whose next input character is a quote has no character
/// left to decode.
proof fn lemma_quote_head(v: Seq<char>, pos: int, s: Seq<char>, k: int, tail: Seq<char>)
    requires
        0 <= pos < v.len(),
        0 <= k <= s.len(),
        v.skip(pos) == escape(s.skip(k)) + tail,
        1 <= tail.len(),
        tail[0] == '"',
        v[pos] == '"',
    ensures
        k == s.len(),
{
    if k < s.len() {
        let w = s.skip(k);
        assert(w.len() > 0);
        assert(w[0] == s[k]);
        assert(escape(w) == escape_char(s[k]) + escape(w.skip(1)));
        lemma_escape_char_facts(s[k]);
        assert(v.skip(pos)[0] == v[pos]);
        assert((escape_char(s[k]) + escape(w.skip(1)) + tail)[0] == escape_char(s[k])[0]);
    }
}

/// A decomposition whose next input character is a backslash continues
/// with the full escape of a special character.
proof fn lemma_special_head(v: Seq<char>, pos: int, s: Seq<char>, k: int, tail: Seq<char>)
    requires
        0 <= pos < v.len(),
        0 <= k <= s.len(),
        v.skip(pos) == escape(s.skip(k)) + tail,
        1 <= tail.len(),
        tail[0] == '"',
        v[pos] == '\\',
    ensures
        k < s.len(),
        is_special(s[k]),
        2 <= escape_char(s[k]).len(),
        pos + escape_char(s[k]).len() <= v.len(),
        v.subrange(pos, pos + escape_char(s[k]).len() as int) == escape_char(s[k]),
        v.skip(pos + escape_char(s[k]).len() as int) == escape(s.skip(k + 1)) + tail,
{
    if k == s.len() {
        assert(s.skip(k).len() == 0);
        assert(v.skip(pos) =~= tail);
        assert(v.skip(pos)[0] == v[pos]);
        assert(false);
    }
    let w = s.skip(k);
    assert(w.len() > 0);
    assert(w[0] == s[k]);
    assert(escape(w) == escape_char(s[k]) + escape(w.skip(1)));
    assert(w.skip(1) =~= s.skip(k + 1));
    lemma_escape_char_facts(s[k]);
    assert(escape(w) + tail =~= escape_char(s[k]) + (escape(s.skip(k + 1)) + tail));
    lemma_skip_of_add(v, pos, escape_char(s[k]), escape(s.skip(k + 1)) + tail);
    assert(v.subrange(pos, pos + escape_char(s[k]).len() as int)[0] == v[pos]);
}

/// A decomposition whose next input character is no backslash and no
/// quote continues with that character standing for itself.
proof fn lemma_ordinary_head(v: Seq<char>, pos: int, s: Seq<char>, k: int, tail: Seq<char>)
    requires
        0 <= pos < v.len(),
        0 <= k <= s.len(),
        v.skip(pos) == escape(s.skip(k)) + tail,
        1 <= tail.len(),
        tail[0] == '"',
        v[pos] != '"',
        v[pos] != '\\',
    ensures
        k < s.len(),
        !is_special(s[k]),
        s[k] == v[pos],
        32 <= v[pos] as u32,
        pos + 1 <= v.len(),
        v.skip(pos + 1) == escape(s.skip(k + 1)) + tail,
{
    if k == s.len() {
        assert(s.skip(k).len() == 0);
        assert(v.skip(pos) =~= tail);
        assert(v.skip(pos)[0] == v[pos]);
        assert(false);
    }
    let w = s.skip(k);
    assert(w.len() > 0);
    assert(w[0] == s[k]);
    assert(escape(w) == escape_char(s[k]) + escape(w.skip(1)));
    assert(w.skip(1) =~= s.skip(k + 1));
    lemma_escape_char_facts(s[k]);
    assert(v.skip(pos)[0] == v[pos]);
    assert((escape_char(s[k]) + escape(w.skip(1)) + tail)[0] == escape_char(s[k])[0]);
    assert(escape_char(s[k])[0] == v[pos]);
    assert(!is_special(s[k]));
    assert(escape(w) + tail =~= seq![s[k]] + (escape(s.skip(k + 1)) + tail));
    lemma_skip_of_add(v, pos, seq![s[k]], escape(s.skip(k + 1)) + tail);
}

/// The value of a lower-case hex digit, if the character is one.
fn un_hex(c: char) -> (r: Option<u32>)
    ensures
        r matches Some(n) ==> n < 16 && hex_digit(n as int) == c,
        r is None ==> forall|n: int| 0 <= n < 16 ==> hex_digit(n) != c,
{
    if c == '0' {
        Some(0)
    } else if c == '1' {
        Some(1)
    } else if c == '2' {
        Some(2)
    } else if c == '3' {
        Some(3)
    } else if c == '4' {
        Some(4)
    } else if c == '5' {
        Some(5)
    } else if c == '6' {
        Some(6)
    } else if c == '7' {
        Some(7)
    } else if c == '8' {
        Some(8)
    } else if c == '9' {
        Some(9)
    } else if c == 'a' {
        Some(10)
    } else if c == 'b' {
        Some(11)
    } else if c == 'c' {
        Some(12)
    } else if c == 'd' {
        Some(13)
    } else if c == 'e' {
        Some(14)
    } else if c == 'f' {
        Some(15)
    } else {
        None
    }
}

/// Whether `pat` occurs in `v` at position `pos`.
fn match_at(v: &Vec<char>, pos: usize, pat: &Vec<char>) -> (r: bool)
    requires
        pos <= v@.len(),
    ensures
        r <==> (pos + pat@.len() <= v@.len() && v@.subrange(pos as int, pos + pat@.len())
            == pat@),
{
    let n = v.len();
    if n - pos < pat.len() {
        return false;
    }
    let mut j: usize = 0;
    while j < pat.len()
        invariant
            j <= pat@.len(),
            n == v@.len(),
            pos + pat@.len() <= n,
            forall|i: int| 0 <= i < j ==> v@[pos + i] == pat@[i],
        decreases pat@.len() - j,
    {
        if v[pos + j] != pat[j] {
            proof {
                if v@.subrange(pos as int, pos + pat@.len()) == pat@ {
                    assert(v@.subrange(pos as int, pos + pat@.len())[j as int] == v@[pos + j]);
                }
            }
            return false;
        }
        j = j + 1;
    }
    proof {
        assert(v@.subrange(pos as int, pos + pat@.len()) =~= pat@);
    }
    true
}

/// Reads one canonically escaped string together with its closing quote,
/// returning the decoded characters and the position just after the quote.
fn parse_jstring(v: &Vec<char>, start: usize) -> (r: Option<(Vec<char>, usize)>)
    requires
        start <= v@.len(),
    ensures
        r matches Some(p) ==> start <= p.1 <= v@.len() && v@.subrange(start as int, p.1 as int)
            == escape(p.0@) + seq!['"'],
        forall|s: Seq<char>, rest: Seq<char>| #[trigger] strs_from(v@, start as int, s, rest)
            ==> (r matches Some(p) && p.0@ == s && p.1 == start + escape(s).len() + 1),
{
    let ghost vv = v@;
    let mut acc: Vec<char> = Vec::new();
    let mut pos: usize = start;
    proof {
        assert(vv.subrange(start as int, start as int) =~= escape(acc@));
        assert forall|s: Seq<char>, rest: Seq<char>| #[trigger] strs_from(vv, start as int, s, rest)
            implies acc@.len() <= s.len() && acc@ == s.take(acc@.len() as int) by {
            assert(acc@ =~= s.take(0));
        }
    }
    loop
        invariant
            start <= pos <= vv.len(),
            vv == v@,
            vv.subrange(start as int, pos as int) == escape(acc@),
            forall|s: Seq<char>, rest: Seq<char>| #[trigger] strs_from(vv, start as int, s, rest)
                ==> acc@.len() <= s.len() && acc@ == s.take(acc@.len() as int),
        decreases vv.len() - pos,
    {
        let ghost k = acc@.len() as int;
        proof {
            assert forall|s: Seq<char>, rest: Seq<char>| #[trigger] strs_from(
                vv,
                start as int,
                s,
                rest,
            ) implies vv.skip(pos as int) == escape(s.skip(k)) + (seq!['"'] + rest) && k
                <= s.len() by {
                lemma_string_remaining(vv, start as int, pos as int, acc@, s, rest);
            }
        }
        if pos >= v.len() {
            proof {
                assert forall|s: Seq<char>, rest: Seq<char>| !strs_from(
                    vv,
                    start as int,
                    s,
                    rest,
                ) by {
                    if strs_from(vv, start as int, s, rest) {
                        assert(vv.skip(pos as int).len() == 0);
                        assert((escape(s.skip(k)) + (seq!['"'] + rest)).len() >= 1);
                    }
                }
            }
            return None;
        }
        let c = v[pos];
        if c == '"' {
            proof {
                assert(vv.subrange(start as int, pos + 1) =~= escape(acc@) + seq!['"']);
                assert forall|s: Seq<char>, rest: Seq<char>| #[trigger] strs_from(
                    vv,
                    start as int,
                    s,
                    rest,
                ) implies acc@ == s && pos + 1 == start + escape(s).len() + 1 by {
                    lemma_quote_head(vv, pos as int, s, k, seq!['"'] + rest);
                    assert(acc@ =~= s.take(k));
                    assert(s.take(k) =~= s);
                }
            }
            return Some((acc, pos + 1));
        }
        if c == '\\' {
            proof {
                assert forall|s: Seq<char>, rest: Seq<char>| #[trigger] strs_from(
                    vv,
                    start as int,
                    s,
                    rest,
                ) implies k < s.len() && is_special(s[k]) && 2 <= escape_char(s[k]).len() && pos
                    + escape_char(s[k]).len() <= vv.len() && vv.subrange(
                    pos as int,
                    pos + escape_char(s[k]).len() as int,
                ) == escape_char(s[k]) && vv.skip(pos + escape_char(s[k]).len() as int) == escape(
                    s.skip(k + 1),
                ) + (seq!['"'] + rest) by {
                    lemma_special_head(vv, pos as int, s, k, seq!['"'] + rest);
                }
            }
            if v.len() - pos < 2 {
                proof {
                    assert forall|s: Seq<char>, rest: Seq<char>| !strs_from(
                        vv,
                        start as int,
                        s,
                        rest,
                    ) by {
                        if strs_from(vv, start as int, s, rest) {
                            assert(pos + escape_char(s[k]).len() <= vv.len());
                        }
                    }
                }
                return None;
            }
            let d = v[pos + 1];
            proof {
                assert forall|s: Seq<char>, rest: Seq<char>| #[trigger] strs_from(
                    vv,
                    start as int,
                    s,
                    rest,
                ) implies escape_char(s[k])[1] == d by {
                    assert(vv.subrange(pos as int, pos + escape_char(s[k]).len() as int)[1]
                        == vv[pos + 1]);
                }
            }
            if d == '"' || d == '\\' {
                proof {
                    assert forall|s: Seq<char>, rest: Seq<char>| #[trigger] strs_from(
                        vv,
                        start as int,
                        s,
                        rest,
                    ) implies s[k] == d && acc@.push(d) == s.take(k + 1) && vv.skip(pos + 2)
                        == escape(s.skip(k + 1)) + (seq!['"'] + rest) by {
                        lemma_escape_char_facts(s[k]);
                        assert(s.take(k + 1) =~= s.take(k).push(s[k]));
                        assert(acc@ == s.take(k));
                        assert(escape_char(s[k]).len() == 2);
                    }
                    lemma_escape_snoc(acc@, d);
                }
                acc.push(d);
                pos = pos + 2;
                proof {
                    assert(is_special(d));
                    assert(escape_char(d) =~= seq!['\\', d]);
                    assert(vv.subrange(start as int, pos as int) =~= escape(acc@));
                    assert forall|s: Seq<char>, rest: Seq<char>| #[trigger] strs_from(
                        vv,
                        start as int,
                        s,
                        rest,
                    ) implies acc@.len() <= s.len() && acc@ == s.take(acc@.len() as int) by {
                        assert(acc@ == s.take(k + 1));
                    }
                }
            } else if d == 'u' {
                if v.len() - pos < 6 {
                    proof {
                        assert forall|s: Seq<char>, rest: Seq<char>| !strs_from(
                            vv,
                            start as int,
                            s,
                            rest,
                        ) by {
                            if strs_from(vv, start as int, s, rest) {
                                lemma_escape_char_facts(s[k]);
                                assert((s[k] as u32) < 32);
                                assert(escape_char(s[k]).len() == 6);
                            }
                        }
                    }
                    return None;
                }
                proof {
                    assert forall|s: Seq<char>, rest: Seq<char>| #[trigger] strs_from(
                        vv,
                        start as int,
                        s,
                        rest,
                    ) implies (s[k] as u32) < 32 && escape_char(s[k]).len() == 6 && vv[pos + 2]
                        == '0' && vv[pos + 3] == '0' && vv[pos + 4] == hex_digit(
                        (s[k] as u32 / 16) as int,
                    ) && vv[pos + 5] == hex_digit((s[k] as u32 % 16) as int) by {
                        lemma_escape_char_facts(s[k]);
                        let e = escape_char(s[k]);
                        assert(e == seq!['\\', 'u', '0', '0', hex_digit((s[k] as u32 / 16) as int),
                            hex_digit((s[k] as u32 % 16) as int)]);
                        assert forall|i: int| 0 <= i < 6 implies vv[pos + i] == e[i] by {
                            assert(vv.subrange(pos as int, pos + 6)[i] == vv[pos + i]);
                        }
                    }
                }
                if v[pos + 2] != '0' || v[pos + 3] != '0' {
                    return None;
                }
                let h1 = v[pos + 4];
                let d1: u32 = if h1 == '0' {
                    0
                } else if h1 == '1' {
                    1
                } else {
                    proof {
                        assert forall|s: Seq<char>, rest: Seq<char>| !strs_from(
                            vv,
                            start as int,
                            s,
                            rest,
                        ) by {
                            if strs_from(vv, start as int, s, rest) {
                                assert(s[k] as u32 / 16 < 2);
                                assert(hex_digit(0) == '0' && hex_digit(1) == '1');
                            }
                        }
                    }
                    return None;
                };
                let h2 = v[pos + 5];
                let d2: u32 = match un_hex(h2) {
                    Some(x) => x,
                    None => {
                        proof {
                            assert forall|s: Seq<char>, rest: Seq<char>| !strs_from(
                                vv,
                                start as int,
                                s,
                                rest,
                            ) by {
                                if strs_from(vv, start as int, s, rest) {
                                    assert(0 <= s[k] as u32 % 16 < 16);
                                    assert(hex_digit((s[k] as u32 % 16) as int) == h2);
                                }
                            }
                        }
                        return None;
                    },
                };
                let code: u32 = d1 * 16 + d2;
                let ch: char = (code as u8) as char;
                proof {
                    broadcast use vstd::utf8::char_u32_cast;

                    assert(code < 32);
                    assert(ch as u32 == code);
                    assert(is_special(ch));
                    assert(code / 16 == d1 && code % 16 == d2);
                    assert(escape_char(ch) =~= seq!['\\', 'u', '0', '0', hex_digit(d1 as int),
                        hex_digit(d2 as int)]);
                    assert forall|s: Seq<char>, rest: Seq<char>| #[trigger] strs_from(
                        vv,
                        start as int,
                        s,
                        rest,
                    ) implies s[k] == ch && acc@.push(ch) == s.take(k + 1) && vv.skip(pos + 6)
                        == escape(s.skip(k + 1)) + (seq!['"'] + rest) by {
                        let cu = s[k] as u32;
                        assert(cu < 32);
                        assert(hex_digit((cu / 16) as int) == h1);
                        assert(cu / 16 < 2);
                        if h1 == '0' {
                            assert(hex_digit(0) == '0');
                            if cu / 16 == 1 {
                                assert(hex_digit(1) == '1');
                            }
                            assert(cu / 16 == 0);
                        } else {
                            assert(hex_digit(1) == '1');
                            if cu / 16 == 0 {
                                assert(hex_digit(0) == '0');
                            }
                            assert(cu / 16 == 1);
                        }
                        assert(cu / 16 == d1);
                        assert(hex_digit((cu % 16) as int) == h2);
                        assert(hex_digit(d2 as int) == h2);
                        lemma_hex_digit_injective((cu % 16) as int, d2 as int);
                        assert(cu % 16 == d2);
                        assert(cu == d1 * 16 + d2);
                        assert(s[k] as u32 == ch as u32);
                        vstd::utf8::char_u32_cast(s[k], s[k] as u32);
                        vstd::utf8::char_u32_cast(ch, ch as u32);
                        assert(s[k] == ch);
                        assert(escape_char(s[k]).len() == 6);
                        assert(s.take(k + 1) =~= s.take(k).push(s[k]));
                        assert(acc@ == s.take(k));
                    }
                    lemma_escape_snoc(acc@, ch);
                }
                // the consumed six characters are exactly the escape of `ch`
                proof {
                    assert(vv[pos as int] == '\\');
                    assert(vv[pos + 1] == 'u');
                    assert(hex_digit(d1 as int) == h1) by {
                        if d1 == 0 {
                        } else {
                        }
                    }
                    assert(vv.subrange(start as int, pos + 6) =~= escape(acc@.push(ch)));
                }
                acc.push(ch);
                pos = pos + 6;
                proof {
                    assert forall|s: Seq<char>, rest: Seq<char>| #[trigger] strs_from(
                        vv,
                        start as int,
                        s,
                        rest,
                    ) implies acc@.len() <= s.len() && acc@ == s.take(acc@.len() as int) by {
                        assert(acc@ == s.take(k + 1));
                    }
                }
            } else {
                proof {
                    assert forall|s: Seq<char>, rest: Seq<char>| !strs_from(
                        vv,
                        start as int,
                        s,
                        rest,
                    ) by {
                        if strs_from(vv, start as int, s, rest) {
                            lemma_escape_char_facts(s[k]);
                        }
                    }
                }
                return None;
            }
        } else {
            // an unescaped character stands for itself; raw control
            // characters are not canonical
            let cu = c as u32;
            if cu < 32 {
                proof {
                    assert forall|s: Seq<char>, rest: Seq<char>| !strs_from(
                        vv,
                        start as int,
                        s,
                        rest,
                    ) by {
                        if strs_from(vv, start as int, s, rest) {
                            lemma_ordinary_head(vv, pos as int, s, k, seq!['"'] + rest);
                        }
                    }
                }
                return None;
            }
            proof {
                assert forall|s: Seq<char>, rest: Seq<char>| #[trigger] strs_from(
                    vv,
                    start as int,
                    s,
                    rest,
                ) implies k < s.len() && s[k] == c && acc@.push(c) == s.take(k + 1) && vv.skip(
                    pos + 1,
                ) == escape(s.skip(k + 1)) + (seq!['"'] + rest) by {
                    lemma_ordinary_head(vv, pos as int, s, k, seq!['"'] + rest);
                    assert(s.take(k + 1) =~= s.take(k).push(s[k]));
                    assert(acc@ == s.take(k));
                }
                lemma_escape_snoc(acc@, c);
                assert(!is_special(c));
                assert(escape_char(c) =~= seq![c]);
            }
            acc.push(c);
            pos = pos + 1;
            proof {
                assert(vv.subrange(start as int, pos as int) =~= escape(acc@));
                assert forall|s: Seq<char>, rest: Seq<char>| #[trigger] strs_from(
                    vv,
                    start as int,
                    s,
                    rest,
                ) implies acc@.len() <= s.len() && acc@ == s.take(acc@.len() as int) by {
                    assert(acc@ == s.take(k + 1));
                }
            }
        }
    }
}

/// Adjacent pieces of a text concatenate.
proof fn lemma_subrange_join(v: Seq<char>, a: int, b: int, c: int)
    requires
        0 <= a <= b <= c <= v.len(),
    ensures
        v.subrange(a, c) == v.subrange(a, b) + v.subrange(b, c),
{
    assert(v.subrange(a, c) =~= v.subrange(a, b) + v.subrange(b, c));
}

/// Reads the encoding of one task, returning it and the position just
/// after its closing brace.
fn parse_task(v: &Vec<char>, start: usize) -> (r: Option<(ToDo, usize)>)
    requires
        start <= v@.len(),
    ensures
        r matches Some(p) ==> start <= p.1 <= v@.len() && v@.subrange(start as int, p.1 as int)
            == json_task(p.0@),
        forall|t: TaskView, rest: Seq<char>| #[trigger] task_from(v@, start as int, t, rest)
            ==> (r matches Some(p) && p.0@ == t && p.1 == start + json_task(t).len()),
{
    let ghost vv = v@;
    let n = v.len();
    let open = lit_rec_open();
    proof {
        assert forall|t: TaskView, rest: Seq<char>| #[trigger] task_from(
            vv,
            start as int,
            t,
            rest,
        ) implies start + 9 <= vv.len() && vv.subrange(start as int, start as int + 9)
            == rec_open() && strs_from(
            vv,
            start as int + 9,
            t.name,
            rec_mid() + escape(t.status) + seq!['"', '}'] + rest,
        ) by {
            assert(json_task(t) + rest =~= rec_open() + ((escape(t.name) + seq!['"']) + (rec_mid()
                + escape(t.status) + seq!['"', '}'] + rest)));
            lemma_skip_of_add(vv, start as int, rec_open(), (escape(t.name) + seq!['"']) + (
            rec_mid() + escape(t.status) + seq!['"', '}'] + rest));
        }
    }
    if !match_at(v, start, &open) {
        return None;
    }
    proof {
        assert(start + 9 <= n);
    }
    let p1 = start + 9;
    let name_res = parse_jstring(v, p1);
    let (name_chars, p2) = match name_res {
        Some(x) => x,
        None => {
            return None;
        },
    };
    proof {
        assert forall|t: TaskView, rest: Seq<char>| #[trigger] task_from(
            vv,
            start as int,
            t,
            rest,
        ) implies name_chars@ == t.name && p2 == p1 + escape(t.name).len() + 1 && p2 + 11
            <= vv.len() && vv.subrange(p2 as int, p2 + 11) == rec_mid() && strs_from(
            vv,
            p2 + 11,
            t.status,
            seq!['}'] + rest,
        ) by {
            lemma_skip_of_add(vv, p1 as int, escape(t.name) + seq!['"'], rec_mid() + escape(
                t.status,
            ) + seq!['"', '}'] + rest);
            assert(vv.skip(p2 as int) == rec_mid() + escape(t.status) + seq!['"', '}'] + rest);
            assert(rec_mid() + escape(t.status) + seq!['"', '}'] + rest =~= rec_mid() + ((escape(
                t.status,
            ) + seq!['"']) + (seq!['}'] + rest)));
            lemma_skip_of_add(vv, p2 as int, rec_mid(), (escape(t.status) + seq!['"']) + (
            seq!['}'] + rest));
        }
    }
    let mid = lit_rec_mid();
    if !match_at(v, p2, &mid) {
        return None;
    }
    proof {
        assert(p2 + 11 <= n);
    }
    let p3 = p2 + 11;
    let status_res = parse_jstring(v, p3);
    let (status_chars, p4) = match status_res {
        Some(x) => x,
        None => {
            return None;
        },
    };
    proof {
        assert forall|t: TaskView, rest: Seq<char>| #[trigger] task_from(
            vv,
            start as int,
            t,
            rest,
        ) implies status_chars@ == t.status && p4 == p3 + escape(t.status).len() + 1 && vv.skip(
            p4 as int,
        ) == seq!['}'] + rest by {
            lemma_skip_of_add(vv, p3 as int, escape(t.status) + seq!['"'], seq!['}'] + rest);
        }
    }
    if v.len() - p4 < 1 {
        proof {
            assert forall|t: TaskView, rest: Seq<char>| !task_from(vv, start as int, t, rest) by {
                if task_from(vv, start as int, t, rest) {
                    assert(vv.skip(p4 as int).len() == 0);
                    assert((seq!['}'] + rest).len() >= 1);
                }
            }
        }
        return None;
    }
    if v[p4] != '}' {
        proof {
            assert forall|t: TaskView, rest: Seq<char>| !task_from(vv, start as int, t, rest) by {
                if task_from(vv, start as int, t, rest) {
                    assert(vv.skip(p4 as int)[0] == vv[p4 as int]);
                    assert((seq!['}'] + rest)[0] == '}');
                }
            }
        }
        return None;
    }
    let end = p4 + 1;
    let name_s = crate::text::chars_text(&name_chars);
    let status_s = crate::text::chars_text(&status_chars);
    let t = ToDo { name: name_s, status: status_s };
    proof {
        lemma_subrange_join(vv, start as int, p1 as int, p2 as int);
        lemma_subrange_join(vv, start as int, p2 as int, p3 as int);
        lemma_subrange_join(vv, start as int, p3 as int, p4 as int);
        lemma_subrange_join(vv, start as int, p4 as int, end as int);
        assert(vv.subrange(p4 as int, end as int) =~= seq!['}']);
        assert(vv.subrange(start as int, end as int) =~= json_task(t@));
        assert forall|t2: TaskView, rest: Seq<char>| #[trigger] task_from(
            vv,
            start as int,
            t2,
            rest,
        ) implies t@ == t2 && end == start + json_task(t2).len() by {
            assert(t@ =~= t2);
        }
    }
    Some((t, end))
}

/// Reads a whole canonical encoding, or nothing.
#[verifier::rlimit(50)]
pub fn parse_tasks(v: &Vec<char>) -> (r: Option<Vec<ToDo>>)
    ensures
        r matches Some(l) ==> v@ == json_list(views(l@)),
        forall|ts: Seq<TaskView>| v@ == #[trigger] json_list(ts) ==> (r matches Some(l) && views(
            l@,
        ) == ts),
{
    let ghost vv = v@;
    let n = v.len();
    if n == 2 && v[0] == '[' && v[1] == ']' {
        let empty: Vec<ToDo> = Vec::new();
        proof {
            assert(views(empty@) =~= Seq::<TaskView>::empty());
            assert(vv =~= json_list(views(empty@)));
            assert forall|ts: Seq<TaskView>| vv == #[trigger] json_list(ts) implies views(empty@)
                == ts by {
                if ts.len() > 0 {
                    assert(json_list(ts)[1] == '\n');
                    assert(vv[1] == ']');
                }
                assert(views(empty@) =~= ts);
            }
        }
        return Some(empty);
    }
    if n < 2 || v[0] != '[' || v[1] != '\n' {
        proof {
            assert forall|ts: Seq<TaskView>| vv != json_list(ts) by {
                if vv == json_list(ts) {
                    if ts.len() == 0 {
                        assert(json_list(ts).len() == 2);
                        assert(json_list(ts)[0] == '[');
                        assert(json_list(ts)[1] == ']');
                    } else {
                        assert(json_list(ts).len() >= 4);
                        assert(json_list(ts)[0] == '[');
                        assert(json_list(ts)[1] == '\n');
                    }
                }
            }
        }
        return None;
    }
    proof {
        assert forall|ts: Seq<TaskView>| vv == #[trigger] json_list(ts) implies ts.len() > 0
            && vv.skip(2) == json_inner(ts) + seq!['\n', ']'] by {
            if ts.len() == 0 {
                assert(json_list(ts)[1] == ']');
            }
            assert(json_list(ts) =~= seq!['[', '\n'] + (json_inner(ts) + seq!['\n', ']']));
            assert(vv.skip(0) =~= vv);
            lemma_skip_of_add(vv, 0, seq!['[', '\n'], json_inner(ts) + seq!['\n', ']']);
        }
    }
    let mut acc: Vec<ToDo> = Vec::new();
    let mut pos: usize = 2;
    proof {
        assert forall|ts: Seq<TaskView>| vv == #[trigger] json_list(ts) implies views(acc@)
            == ts.take(0) && vv.skip(2) == json_inner(ts.skip(0)) + seq!['\n', ']'] by {
            assert(views(acc@) =~= ts.take(0));
            assert(ts.skip(0) =~= ts);
        }
    }
    loop
        invariant
            2 <= pos <= n,
            n == vv.len(),
            vv == v@,
            vv[0] == '[',
            vv[1] == '\n',
            acc@.len() == 0 ==> pos == 2,
            acc@.len() > 0 ==> vv.subrange(0, pos as int) == seq!['[', '\n'] + json_inner(
                views(acc@),
            ) + seq![',', '\n'],
            forall|ts: Seq<TaskView>| vv == #[trigger] json_list(ts) ==> (acc@.len() < ts.len()
                && views(acc@) == ts.take(acc@.len() as int) && vv.skip(pos as int) == json_inner(
                ts.skip(acc@.len() as int),
            ) + seq!['\n', ']']),
        decreases n - pos,
    {
        let ghost k = acc@.len() as int;
        proof {
            assert forall|ts: Seq<TaskView>| vv == #[trigger] json_list(ts) implies task_from(
                vv,
                pos as int,
                ts[k],
                if k + 1 < ts.len() {
                    seq![',', '\n'] + json_inner(ts.skip(k + 1)) + seq!['\n', ']']
                } else {
                    seq!['\n', ']']
                },
            ) by {
                let w = ts.skip(k);
                assert(w.len() > 0);
                assert(w[0] == ts[k]);
                if k + 1 < ts.len() {
                    assert(w.len() > 1);
                    assert(w.skip(1) =~= ts.skip(k + 1));
                    assert(json_inner(w) + seq!['\n', ']'] =~= json_task(ts[k]) + (seq![',', '\n']
                        + json_inner(ts.skip(k + 1)) + seq!['\n', ']']));
                } else {
                    assert(w.len() == 1);
                    assert(json_inner(w) + seq!['\n', ']'] =~= json_task(ts[k]) + seq!['\n', ']']);
                }
            }
        }
        let tr = parse_task(v, pos);
        let (t, newpos) = match tr {
            Some(x) => x,
            None => {
                return None;
            },
        };
        let ghost oldpos = pos as int;
        let ghost oldacc = acc@;
        acc.push(t);
        pos = newpos;
        proof {
            assert(views(acc@) =~= views(oldacc).push(t@));
            lemma_json_inner_snoc(views(oldacc), t@);
            lemma_subrange_join(vv, 0, oldpos, pos as int);
            assert(vv.subrange(0, pos as int) == seq!['[', '\n'] + json_inner(views(acc@))) by {
                if oldacc.len() == 0 {
                    assert(vv.subrange(0, 2) =~= seq!['[', '\n']);
                    assert(vv.subrange(0, pos as int) =~= seq!['[', '\n'] + json_inner(
                        views(acc@),
                    ));
                } else {
                    assert(vv.subrange(0, pos as int) =~= seq!['[', '\n'] + json_inner(
                        views(acc@),
                    ));
                }
            }
            assert forall|ts: Seq<TaskView>| vv == #[trigger] json_list(ts) implies views(acc@)
                == ts.take(k + 1) && k + 1 <= ts.len() && vv.skip(pos as int) == (if k + 1
                < ts.len() {
                seq![',', '\n'] + json_inner(ts.skip(k + 1)) + seq!['\n', ']']
            } else {
                seq!['\n', ']']
            }) by {
                let tail = if k + 1 < ts.len() {
                    seq![',', '\n'] + json_inner(ts.skip(k + 1)) + seq!['\n', ']']
                } else {
                    seq!['\n', ']']
                };
                lemma_skip_of_add(vv, oldpos, json_task(ts[k]), tail);
                assert(views(acc@) =~= ts.take(k + 1));
            }
        }
        let remaining = n - pos;
        if remaining >= 2 && v[pos] == ',' && v[pos + 1] == '\n' {
            pos = pos + 2;
            proof {
                lemma_subrange_join(vv, 0, pos - 2, pos as int);
                assert(vv.subrange(pos - 2, pos as int) =~= seq![',', '\n']);
                assert forall|ts: Seq<TaskView>| vv == #[trigger] json_list(ts) implies acc@.len()
                    < ts.len() && views(acc@) == ts.take(acc@.len() as int) && vv.skip(pos as int)
                    == json_inner(ts.skip(acc@.len() as int)) + seq!['\n', ']'] by {
                    if k + 1 == ts.len() {
                        assert(vv.skip(pos - 2)[0] == vv[pos - 2]);
                        assert((seq!['\n', ']'])[0] == '\n');
                        assert(false);
                    }
                    assert(seq![',', '\n'] + json_inner(ts.skip(k + 1)) + seq!['\n', ']']
                        =~= seq![',', '\n'] + (json_inner(ts.skip(k + 1)) + seq!['\n', ']']));
                    lemma_skip_of_add(vv, pos - 2, seq![',', '\n'], json_inner(ts.skip(k + 1))
                        + seq!['\n', ']']);
                }
                assert(vv.subrange(0, pos as int) =~= seq!['[', '\n'] + json_inner(views(acc@))
                    + seq![',', '\n']);
            }
        } else if remaining == 2 && v[pos] == '\n' && v[pos + 1] == ']' {
            proof {
                lemma_subrange_join(vv, 0, pos as int, n as int);
                assert(vv.subrange(pos as int, n as int) =~= seq!['\n', ']']);
                assert(vv.subrange(0, n as int) =~= vv);
                assert(views(acc@).len() > 0);
                assert(vv =~= json_list(views(acc@)));
                assert forall|ts: Seq<TaskView>| vv == #[trigger] json_list(ts) implies views(acc@)
                    == ts by {
                    if k + 1 < ts.len() {
                        assert(vv.skip(pos as int)[0] == vv[pos as int]);
                        assert((seq![',', '\n'] + json_inner(ts.skip(k + 1)) + seq!['\n', ']'])[0]
                            == ',');
                        assert(false);
                    }
                    assert(views(acc@) =~= ts);
                }
            }
            return Some(acc);
        } else {
            proof {
                assert forall|ts: Seq<TaskView>| vv != json_list(ts) by {
                    if vv == json_list(ts) {
                        if k + 1 < ts.len() {
                            assert(vv.skip(pos as int)[0] == vv[pos as int]);
                            assert(vv.skip(pos as int)[1] == vv[pos + 1]);
                            assert((seq![',', '\n'] + json_inner(ts.skip(k + 1)) + seq!['\n',
                                ']'])[0] == ',');
                            assert((seq![',', '\n'] + json_inner(ts.skip(k + 1)) + seq!['\n',
                                ']'])[1] == '\n');
                            assert(vv.skip(pos as int).len() >= 2);
                        } else {
                            assert(vv.skip(pos as int).len() == 2);
                            assert(vv.skip(pos as int)[0] == vv[pos as int]);
                            assert(vv.skip(pos as int)[1] == vv[pos + 1]);
                        }
                    }
                }
            }
            return None;
        }
    }
}

} // verus!
