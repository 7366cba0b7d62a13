use vstd::prelude::*;

use crate::errors::TdError;
use crate::tasks::Task;
use crate::tasks::TaskList;
use crate::tasks::TaskView;

verus! {

// The stored document holds one three-line block per task, in list order:
//
//     [[tasks]]
//     done = false
//     text = "the text, escaped"
//
// Each line ends with a newline.  Inside the quotes, backslash, double
// quote and newline are written as the two-character escapes `\\`, `\"`
// and `\n`; every other character stands for itself.
/// How one character of a text value is written inside the quotes.
pub open spec fn escape_char(c: char) -> Seq<char> {
    if c == '\\' {
        seq!['\\', '\\']
    } else if c == '"' {
        seq!['\\', '"']
    } else if c == '\n' {
        seq!['\\', 'n']
    } else {
        seq![c]
    }
}

/// A text value as it stands inside the quotes of a stored document.
pub open spec fn escape_text(s: Seq<char>) -> Seq<char>
    decreases s.len(),
{
    if s.len() == 0 {
        Seq::empty()
    } else {
        escape_char(s[0]) + escape_text(s.drop_first())
    }
}

/// The character that a two-character escape stands for, if the
/// character after the backslash is a legal one.
pub open spec fn unescape_char(c: char) -> Option<char> {
    if c == '\\' {
        Some('\\')
    } else if c == '"' {
        Some('"')
    } else if c == 'n' {
        Some('\n')
    } else {
        None
    }
}

/// The escaping of a text value, undone; `None` when `e` is not a
/// well-formed escaped text (a trailing backslash, an unknown escape,
/// or a bare quote or newline).
pub open spec fn unescape_text(e: Seq<char>) -> Option<Seq<char>>
    decreases e.len(),
{
    if e.len() == 0 {
        Some(Seq::empty())
    } else if e[0] == '\\' {
        if e.len() < 2 {
            None
        } else {
            match unescape_char(e[1]) {
                Some(c) => match unescape_text(e.skip(2)) {
                    Some(rest) => Some(seq![c] + rest),
                    None => None,
                },
                None => None,
            }
        }
    } else if e[0] == '"' || e[0] == '\n' {
        None
    } else {
        match unescape_text(e.skip(1)) {
            Some(rest) => Some(seq![e[0]] + rest),
            None => None,
        }
    }
}

/// The header line that opens each stored task, without its newline.
pub open spec fn header_chars() -> Seq<char> {
    seq!['[', '[', 't', 'a', 's', 'k', 's', ']', ']']
}

/// The `done` line of a finished task, without its newline.
pub open spec fn done_true_chars() -> Seq<char> {
    seq!['d', 'o', 'n', 'e', ' ', '=', ' ', 't', 'r', 'u', 'e']
}

/// The `done` line of an unfinished task, without its newline.
pub open spec fn done_false_chars() -> Seq<char> {
    seq!['d', 'o', 'n', 'e', ' ', '=', ' ', 'f', 'a', 'l', 's', 'e']
}

/// The opening of the text line, up to and including the opening quote.
pub open spec fn text_prefix_chars() -> Seq<char> {
    seq!['t', 'e', 'x', 't', ' ', '=', ' ', '"']
}

/// One task as its stored three-line block.
pub open spec fn encode_task(t: TaskView) -> Seq<char> {
    header_chars() + seq!['\n'] + (if t.done {
        done_true_chars()
    } else {
        done_false_chars()
    }) + seq!['\n'] + text_prefix_chars() + escape_text(t.text) + seq!['"', '\n']
}

/// A whole task list as a stored document.
pub open spec fn encode_spec(l: Seq<TaskView>) -> Seq<char>
    decreases l.len(),
{
    if l.len() == 0 {
        Seq::empty()
    } else {
        encode_task(l[0]) + encode_spec(l.drop_first())
    }
}

/// Position of the first newline of `u` at or after `i`, if any.
pub open spec fn find_newline(u: Seq<char>, i: int) -> Option<int>
    decreases u.len() - i
        when 0 <= i <= u.len()
{
    if i >= u.len() {
        None
    } else if u[i] == '\n' {
        Some(i)
    } else {
        find_newline(u, i + 1)
    }
}

/// The tasks stored in the document `u`, or `None` when `u` does not
/// follow the layout above exactly.
pub open spec fn decode_spec(u: Seq<char>) -> Option<Seq<TaskView>>
    decreases u.len()
        via decode_spec_dec
{
    if u.len() == 0 {
        Some(Seq::empty())
    } else {
        match find_newline(u, 0) {
            None => None,
            Some(k1) => if u.take(k1) != header_chars() {
                None
            } else {
                match find_newline(u, k1 + 1) {
                    None => None,
                    Some(k2) => {
                        let line2 = u.subrange(k1 + 1, k2);
                        if line2 != done_true_chars() && line2 != done_false_chars() {
                            None
                        } else {
                            let done = line2 == done_true_chars();
                            match find_newline(u, k2 + 1) {
                                None => None,
                                Some(k3) => {
                                    let line3 = u.subrange(k2 + 1, k3);
                                    if line3.len() < 9 || line3.take(8) != text_prefix_chars()
                                        || line3.last() != '"' {
                                        None
                                    } else {
                                        match unescape_text(
                                            line3.subrange(8, line3.len() - 1),
                                        ) {
                                            None => None,
                                            Some(text) => match decode_spec(u.skip(k3 + 1)) {
                                                None => None,
                                                Some(rest) => Some(
                                                    seq![TaskView { done, text }] + rest,
                                                ),
                                            },
                                        }
                                    }
                                },
                            }
                        }
                    },
                }
            },
        }
    }
}

#[via_fn]
proof fn decode_spec_dec(u: Seq<char>) {
    if u.len() != 0 {
        if let Some(k1) = find_newline(u, 0) {
            lemma_find_newline_props(u, 0);
            if let Some(k2) = find_newline(u, k1 + 1) {
                lemma_find_newline_props(u, k1 + 1);
                if let Some(k3) = find_newline(u, k2 + 1) {
                    lemma_find_newline_props(u, k2 + 1);
                }
            }
        }
    }
}

/// What a `find_newline` answer means: the position it returns holds the
/// first newline at or after the start, and `None` means there is none.
pub proof fn lemma_find_newline_props(u: Seq<char>, i: int)
    requires
        0 <= i <= u.len(),
    ensures
        match find_newline(u, i) {
            Some(k) => i <= k < u.len() && u[k] == '\n' && (forall|j: int|
                i <= j < k ==> u[j] != '\n'),
            None => forall|j: int| i <= j < u.len() ==> u[j] != '\n',
        },
    decreases u.len() - i,
{
    if i < u.len() && u[i] != '\n' {
        lemma_find_newline_props(u, i + 1);
    }
}

/// `find_newline` finds `k` when `k` holds a newline and nothing before
/// it (from `i` on) does.
pub proof fn lemma_find_newline_at(u: Seq<char>, i: int, k: int)
    requires
        0 <= i <= k < u.len(),
        u[k] == '\n',
        forall|j: int| i <= j < k ==> u[j] != '\n',
    ensures
        find_newline(u, i) == Some(k),
    decreases k - i,
{
    if i < k {
        lemma_find_newline_at(u, i + 1, k);
    }
}

/// `find_newline` finds nothing when no newline stands at or after `i`.
pub proof fn lemma_find_newline_none(u: Seq<char>, i: int)
    requires
        0 <= i <= u.len(),
        forall|j: int| i <= j < u.len() ==> u[j] != '\n',
    ensures
        find_newline(u, i) is None,
    decreases u.len() - i,
{
    if i < u.len() {
        lemma_find_newline_none(u, i + 1);
    }
}

/// Escaping never produces a newline, so a text value always stays on
/// its own line.
pub proof fn lemma_escape_no_newline(s: Seq<char>)
    ensures
        forall|j: int| 0 <= j < escape_text(s).len() ==> escape_text(s)[j] != '\n',
    decreases s.len(),
{
    if s.len() > 0 {
        lemma_escape_no_newline(s.drop_first());
        let head = escape_char(s[0]);
        let rest = escape_text(s.drop_first());
        assert(escape_text(s) == head + rest);
        assert forall|j: int| 0 <= j < escape_text(s).len() implies escape_text(s)[j] != '\n' by {
            if j < head.len() {
                assert(escape_text(s)[j] == head[j]);
            } else {
                assert(escape_text(s)[j] == rest[j - head.len()]);
            }
        }
    }
}

/// Escaping one more character appends its escape.
pub proof fn lemma_escape_push(s: Seq<char>, c: char)
    ensures
        escape_text(s.push(c)) == escape_text(s) + escape_char(c),
    decreases s.len(),
{
    assert(s.push(c)[0] == if s.len() == 0 {
        c
    } else {
        s[0]
    });
    if s.len() == 0 {
        assert(s.push(c).drop_first() =~= Seq::<char>::empty());
        assert(escape_text(Seq::<char>::empty()) == Seq::<char>::empty());
        assert(escape_text(s.push(c)) == escape_char(c) + Seq::<char>::empty());
        assert(escape_text(s.push(c)) =~= escape_text(s) + escape_char(c));
    } else {
        lemma_escape_push(s.drop_first(), c);
        assert(s.push(c).drop_first() =~= s.drop_first().push(c));
        assert(escape_text(s.push(c)) == escape_char(s[0]) + (escape_text(s.drop_first())
            + escape_char(c)));
        assert(escape_text(s) == escape_char(s[0]) + escape_text(s.drop_first()));
        assert(escape_text(s.push(c)) =~= escape_text(s) + escape_char(c));
    }
}

/// Undoing an escape gives back exactly the text that was escaped.
pub proof fn lemma_unescape_escape(s: Seq<char>)
    ensures
        unescape_text(escape_text(s)) == Some(s),
    decreases s.len(),
{
    if s.len() == 0 {
        assert(unescape_text(escape_text(s)) =~= Some(s));
    } else {
        lemma_unescape_escape(s.drop_first());
        let c = s[0];
        let e = escape_text(s);
        assert(e =~= escape_char(c) + escape_text(s.drop_first()));
        if c == '\\' || c == '"' || c == '\n' {
            assert(e[0] == '\\');
            assert(e.len() >= 2);
            assert(e.skip(2) =~= escape_text(s.drop_first()));
            assert(unescape_char(e[1]) == Some(c));
            assert(unescape_text(e) == Some(seq![c] + s.drop_first()));
        } else {
            assert(e[0] == c);
            assert(e.skip(1) =~= escape_text(s.drop_first()));
            assert(unescape_text(e) == Some(seq![c] + s.drop_first()));
        }
        assert(seq![c] + s.drop_first() =~= s);
    }
}

/// Encoding one more task appends its block to the document.
pub proof fn lemma_encode_push(l: Seq<TaskView>, t: TaskView)
    ensures
        encode_spec(l.push(t)) == encode_spec(l) + encode_task(t),
    decreases l.len(),
{
    assert(l.push(t)[0] == if l.len() == 0 {
        t
    } else {
        l[0]
    });
    if l.len() == 0 {
        assert(l.push(t).drop_first() =~= Seq::<TaskView>::empty());
        assert(encode_spec(Seq::<TaskView>::empty()) == Seq::<char>::empty());
        assert(encode_spec(l.push(t)) == encode_task(t) + Seq::<char>::empty());
        assert(encode_spec(l.push(t)) =~= encode_spec(l) + encode_task(t));
    } else {
        lemma_encode_push(l.drop_first(), t);
        assert(l.push(t).drop_first() =~= l.drop_first().push(t));
        assert(encode_spec(l.push(t)) == encode_task(l[0]) + (encode_spec(l.drop_first())
            + encode_task(t)));
        assert(encode_spec(l) == encode_task(l[0]) + encode_spec(l.drop_first()));
        assert(encode_spec(l.push(t)) =~= encode_spec(l) + encode_task(t));
    }
}

/// Round trip: a document written by `to_document` is read back by
/// `from_document` as exactly the list it came from, whatever texts and
/// flags that list holds.
#[verifier::rlimit(50)]
pub proof fn lemma_document_roundtrip(l: Seq<TaskView>)
    ensures
        decode_spec(encode_spec(l)) == Some(l),
    decreases l.len(),
{
    if l.len() == 0 {
        assert(encode_spec(l).len() == 0);
        assert(decode_spec(encode_spec(l)) == Some(Seq::<TaskView>::empty()));
        assert(Seq::<TaskView>::empty() =~= l);
    } else {
        lemma_document_roundtrip(l.drop_first());
        let t = l[0];
        let u = encode_spec(l);
        let rest = encode_spec(l.drop_first());
        let e = escape_text(t.text);
        let dline = if t.done {
            done_true_chars()
        } else {
            done_false_chars()
        };
        let dlen = dline.len() as int;
        let block = encode_task(t);
        assert(u == block + rest);
        assert(header_chars().len() == 9);
        assert(done_true_chars().len() == 11);
        assert(done_false_chars().len() == 12);
        assert(text_prefix_chars().len() == 8);
        assert(block.len() == 9 + 1 + dlen + 1 + 8 + e.len() + 2);
        let k1 = 9int;
        let k2 = 10 + dlen;
        let k3 = k2 + 1 + 8 + e.len() as int + 1;
        lemma_escape_no_newline(t.text);
        // The three newlines of the block, and no others before them.
        assert(u[k1] == '\n');
        assert(u[k2] == '\n');
        assert(u[k3] == '\n');
        assert forall|j: int| 0 <= j < k1 implies u[j] != '\n' by {
            assert(u[j] == header_chars()[j]);
        }
        assert forall|j: int| k1 < j < k2 implies u[j] != '\n' by {
            assert(u[j] == dline[j - 10]);
        }
        assert forall|j: int| k2 < j < k3 implies u[j] != '\n' by {
            if j < k2 + 1 + 8 {
                assert(u[j] == text_prefix_chars()[j - (k2 + 1)]);
            } else if j < k2 + 1 + 8 + e.len() {
                assert(u[j] == e[j - (k2 + 1 + 8)]);
            } else {
                assert(u[j] == '"');
            }
        }
        lemma_find_newline_at(u, 0, k1);
        lemma_find_newline_at(u, k1 + 1, k2);
        lemma_find_newline_at(u, k2 + 1, k3);
        // The three lines carry the header, the flag and the quoted text.
        assert(u.take(k1) =~= header_chars());
        let line2 = u.subrange(k1 + 1, k2);
        assert(line2 =~= dline);
        if t.done {
            assert(line2 == done_true_chars());
        } else {
            assert(line2 != done_true_chars()) by {
                assert(line2.len() == 12);
            }
            assert(line2 == done_false_chars());
        }
        let line3 = u.subrange(k2 + 1, k3);
        assert(line3 =~= text_prefix_chars() + e + seq!['"']);
        assert(line3.len() == 9 + e.len());
        assert(line3.take(8) =~= text_prefix_chars());
        assert(line3.last() == '"');
        assert(line3.subrange(8, line3.len() - 1) =~= e);
        lemma_unescape_escape(t.text);
        assert(unescape_text(line3.subrange(8, line3.len() - 1)) == Some(t.text));
        // The rest of the document is the encoding of the rest of the list.
        assert(u.skip(k3 + 1) =~= rest);
        assert(decode_spec(u.skip(k3 + 1)) == Some(l.drop_first()));
        assert(TaskView { done: t.done, text: t.text } =~= t);
        assert(decode_spec(u) == Some(seq![t] + l.drop_first()));
        assert(seq![t] + l.drop_first() =~= l);
    }
}

/// The string literals the encoder and the parser work with, pinned to
/// the character sequences the document specification speaks of.
proof fn lemma_doc_literals()
    ensures
        "[[tasks]]"@ == header_chars(),
        "[[tasks]]\n"@ == header_chars() + seq!['\n'],
        "done = true"@ == done_true_chars(),
        "done = false"@ == done_false_chars(),
        "done = true\n"@ == done_true_chars() + seq!['\n'],
        "done = false\n"@ == done_false_chars() + seq!['\n'],
        "text = \""@ == text_prefix_chars(),
        "\"\n"@ == seq!['"', '\n'],
        "\\\\"@ == seq!['\\', '\\'],
        "\\\""@ == seq!['\\', '"'],
        "\\n"@ == seq!['\\', 'n'],
{
    reveal_strlit("[[tasks]]");
    reveal_strlit("[[tasks]]\n");
    reveal_strlit("done = true");
    reveal_strlit("done = false");
    reveal_strlit("done = true\n");
    reveal_strlit("done = false\n");
    reveal_strlit("text = \"");
    reveal_strlit("\"\n");
    reveal_strlit("\\\\");
    reveal_strlit("\\\"");
    reveal_strlit("\\n");
    assert("[[tasks]]"@ =~= header_chars());
    assert("[[tasks]]\n"@ =~= header_chars() + seq!['\n']);
    assert("done = true"@ =~= done_true_chars());
    assert("done = false"@ =~= done_false_chars());
    assert("done = true\n"@ =~= done_true_chars() + seq!['\n']);
    assert("done = false\n"@ =~= done_false_chars() + seq!['\n']);
    assert("text = \""@ =~= text_prefix_chars());
    assert("\"\n"@ =~= seq!['"', '\n']);
    assert("\\\\"@ =~= seq!['\\', '\\']);
    assert("\\\""@ =~= seq!['\\', '"']);
    assert("\\n"@ =~= seq!['\\', 'n']);
}

/// Relies on String::push: appends exactly the one character.
#[verifier::external_body]
fn push_char(s: &mut String, c: char)
    ensures
        final(s)@ == old(s)@.push(c),
{
    s.push(c);
}

/// Writes `text` into `out` in its escaped form.
fn append_escaped(out: &mut String, text: &str)
    ensures
        final(out)@ == old(out)@ + escape_text(text@),
{
    let n = text.unicode_len();
    let mut j: usize = 0;
    while j < n
        invariant
            n == text@.len(),
            j <= n,
            out@ == old(out)@ + escape_text(text@.take(j as int)),
        decreases n - j,
    {
        proof {
            lemma_escape_push(text@.take(j as int), text@[j as int]);
            assert(text@.take(j + 1) =~= text@.take(j as int).push(text@[j as int]));
            lemma_doc_literals();
        }
        let ghost mid = out@;
        let c = text.get_char(j);
        if c == '\\' {
            out.append("\\\\");
        } else if c == '"' {
            out.append("\\\"");
        } else if c == '\n' {
            out.append("\\n");
        } else {
            push_char(out, c);
        }
        proof {
            assert(out@ =~= mid + escape_char(text@[j as int]));
            assert(out@ =~= old(out)@ + escape_text(text@.take(j + 1)));
        }
        j = j + 1;
    }
    proof {
        assert(text@.take(n as int) =~= text@);
    }
}

impl TaskList {
    /// The whole list as a stored document.
    pub fn to_document(&self) -> (r: String)
        ensures
            r@ == encode_spec(self@),
    {
        let mut out = String::new();
        let n = self.count_tasks();
        let mut i: usize = 0;
        while i < n
            invariant
                n == self@.len(),
                i <= n,
                out@ == encode_spec(self@.take(i as int)),
            decreases n - i,
        {
            let t = self.task_at(i);
            let ghost tv = self@[i as int];
            proof {
                lemma_encode_push(self@.take(i as int), tv);
                assert(self@.take(i + 1) =~= self@.take(i as int).push(tv));
                lemma_doc_literals();
            }
            let ghost mid = out@;
            out.append("[[tasks]]\n");
            if t.is_done() {
                out.append("done = true\n");
            } else {
                out.append("done = false\n");
            }
            out.append("text = \"");
            append_escaped(&mut out, t.text().as_str());
            out.append("\"\n");
            proof {
                assert(out@ =~= mid + encode_task(tv));
                assert(out@ =~= encode_spec(self@.take(i + 1)));
            }
            i = i + 1;
        }
        proof {
            assert(self@.take(n as int) =~= self@);
        }
        out
    }
}

/// A newline search on a suffix mirrors the search on the whole string.
proof fn lemma_find_newline_in_suffix(v: Seq<char>, p: int, i: int)
    requires
        0 <= p <= i <= v.len(),
    ensures
        find_newline(v.skip(p), i - p) == match find_newline(v, i) {
            Some(k) => Some(k - p),
            None => None::<int>,
        },
{
    let u = v.skip(p);
    lemma_find_newline_props(v, i);
    match find_newline(v, i) {
        Some(k) => {
            assert(u[k - p] == v[k]);
            assert forall|j: int| i - p <= j < k - p implies u[j] != '\n' by {
                assert(u[j] == v[j + p]);
            }
            lemma_find_newline_at(u, i - p, k - p);
        },
        None => {
            assert forall|j: int| i - p <= j < u.len() implies u[j] != '\n' by {
                assert(u[j] == v[j + p]);
            }
            lemma_find_newline_none(u, i - p);
        },
    }
}

/// Scans `s` for the first newline at or after `from`.
fn find_nl(s: &str, from: usize) -> (r: Option<usize>)
    requires
        from <= s@.len(),
    ensures
        match r {
            Some(k) => from <= k < s@.len() && find_newline(s@, from as int) == Some(k as int),
            None => find_newline(s@, from as int) is None,
        },
{
    let n = s.unicode_len();
    let mut j: usize = from;
    while j < n
        invariant
            n == s@.len(),
            from <= j <= n,
            forall|m: int| from <= m < j ==> s@[m] != '\n',
        decreases n - j,
    {
        if s.get_char(j) == '\n' {
            proof {
                lemma_find_newline_at(s@, from as int, j as int);
            }
            return Some(j);
        }
        j = j + 1;
    }
    proof {
        lemma_find_newline_none(s@, from as int);
    }
    None
}

/// True when the characters of `s` in `[from, to)` are exactly `lit`'s.
fn range_matches(s: &str, from: usize, to: usize, lit: &str) -> (r: bool)
    requires
        from <= to <= s@.len(),
    ensures
        r == (s@.subrange(from as int, to as int) == lit@),
{
    let m = lit.unicode_len();
    if to - from != m {
        proof {
            assert(s@.subrange(from as int, to as int).len() != lit@.len());
        }
        return false;
    }
    let mut j: usize = 0;
    while j < m
        invariant
            m == lit@.len(),
            from + m == to,
            to <= s@.len(),
            j <= m,
            forall|k: int| 0 <= k < j ==> s@[from + k] == lit@[k],
        decreases m - j,
    {
        if s.get_char(from + j) != lit.get_char(j) {
            proof {
                assert(s@.subrange(from as int, to as int)[j as int] != lit@[j as int]);
            }
            return false;
        }
        j = j + 1;
    }
    proof {
        assert(s@.subrange(from as int, to as int) =~= lit@);
    }
    true
}

/// Reads the escaped text standing in `[from, to)` of `s` back into the
/// text it stands for.
fn unescape_range(s: &str, from: usize, to: usize) -> (r: Option<String>)
    requires
        from <= to <= s@.len(),
    ensures
        match r {
            Some(t) => unescape_text(s@.subrange(from as int, to as int)) == Some(t@),
            None => unescape_text(s@.subrange(from as int, to as int)) is None,
        },
{
    let ghost e = s@.subrange(from as int, to as int);
    let mut out = String::new();
    let mut p: usize = from;
    proof {
        assert(e.skip(0) =~= e);
        match unescape_text(e) {
            Some(x) => {
                assert(Seq::<char>::empty() + x =~= x);
            },
            None => {},
        }
    }
    while p < to
        invariant
            from <= p <= to <= s@.len(),
            e == s@.subrange(from as int, to as int),
            match unescape_text(e.skip(p - from)) {
                Some(x) => unescape_text(e) == Some(out@ + x),
                None => unescape_text(e) is None,
            },
        decreases to - p,
    {
        let ghost suf = e.skip(p - from);
        proof {
            assert(suf.len() == to - p);
            assert(suf[0] == s@[p as int]);
        }
        let ghost out0 = out@;
        let c = s.get_char(p);
        if c == '\\' {
            if p + 1 >= to {
                proof {
                    assert(unescape_text(suf) is None);
                }
                return None;
            }
            proof {
                assert(suf[1] == s@[p + 1]);
            }
            let c2 = s.get_char(p + 1);
            let u: char;
            if c2 == '\\' {
                u = '\\';
            } else if c2 == '"' {
                u = '"';
            } else if c2 == 'n' {
                u = '\n';
            } else {
                proof {
                    assert(unescape_char(suf[1]) is None);
                    assert(unescape_text(suf) is None);
                }
                return None;
            }
            push_char(&mut out, u);
            p = p + 2;
            proof {
                assert(unescape_char(suf[1]) == Some(u));
                assert(suf.skip(2) =~= e.skip(p - from));
                match unescape_text(e.skip(p - from)) {
                    Some(x) => {
                        assert(unescape_text(suf) == Some(seq![u] + x));
                        assert(out0.push(u) + x =~= out0 + (seq![u] + x));
                    },
                    None => {
                        assert(unescape_text(suf) is None);
                    },
                }
            }
        } else if c == '"' || c == '\n' {
            proof {
                assert(unescape_text(suf) is None);
            }
            return None;
        } else {
            push_char(&mut out, c);
            p = p + 1;
            proof {
                assert(suf.skip(1) =~= e.skip(p - from));
                match unescape_text(e.skip(p - from)) {
                    Some(x) => {
                        assert(unescape_text(suf) == Some(seq![c] + x));
                        assert(out0.push(c) + x =~= out0 + (seq![c] + x));
                    },
                    None => {
                        assert(unescape_text(suf) is None);
                    },
                }
            }
        }
    }
    proof {
        assert(e.skip((to - from) as int) =~= Seq::<char>::empty());
        assert(unescape_text(e.skip((to - from) as int)) == Some(Seq::<char>::empty()));
        assert(out@ + Seq::<char>::empty() =~= out@);
    }
    Some(out)
}

impl TaskList {
    /// Parses a stored document back into a task list.  A document that
    /// does not follow the stored layout exactly is a `ParseError`.
    pub fn from_document(s: &str) -> (r: Result<TaskList, TdError>)
        ensures
            match r {
                Ok(l) => decode_spec(s@) == Some(l@),
                Err(e) => e == TdError::ParseError && decode_spec(s@) is None,
            },
    {
        let n = s.unicode_len();
        let mut acc: Vec<Task> = Vec::new();
        let mut pos: usize = 0;
        proof {
            assert(s@.skip(0) =~= s@);
            match decode_spec(s@) {
                Some(x) => {
                    assert(Seq::new(acc@.len(), |i: int| acc@[i]@) + x =~= x);
                },
                None => {},
            }
        }
        while pos < n
            invariant
                n == s@.len(),
                pos <= n,
                match decode_spec(s@.skip(pos as int)) {
                    Some(rest) => decode_spec(s@) == Some(
                        Seq::new(acc@.len(), |i: int| acc@[i]@) + rest,
                    ),
                    None => decode_spec(s@) is None,
                },
            decreases n - pos,
        {
            let ghost u = s@.skip(pos as int);
            let ghost acc0 = Seq::new(acc@.len(), |i: int| acc@[i]@);
            proof {
                lemma_doc_literals();
                assert(u.len() == n - pos);
                lemma_find_newline_in_suffix(s@, pos as int, pos as int);
            }
            let k1 = match find_nl(s, pos) {
                Some(k) => k,
                None => {
                    proof {
                        assert(decode_spec(u) is None);
                    }
                    return Err(TdError::ParseError);
                },
            };
            let ghost q1 = k1 - pos;
            proof {
                assert(find_newline(u, 0) == Some(q1 as int));
                assert(u.take(q1 as int) =~= s@.subrange(pos as int, k1 as int));
            }
            if !range_matches(s, pos, k1, "[[tasks]]") {
                proof {
                    assert(u.take(q1 as int) != header_chars());
                    assert(decode_spec(u) is None);
                }
                return Err(TdError::ParseError);
            }
            proof {
                assert(u.take(q1 as int) == header_chars());
                lemma_find_newline_in_suffix(s@, pos as int, k1 + 1);
            }
            let k2 = match find_nl(s, k1 + 1) {
                Some(k) => k,
                None => {
                    proof {
                        assert(find_newline(u, q1 + 1) is None);
                        assert(decode_spec(u) is None);
                    }
                    return Err(TdError::ParseError);
                },
            };
            let ghost q2 = k2 - pos;
            let ghost line2 = u.subrange(q1 + 1, q2 as int);
            proof {
                assert(find_newline(u, q1 + 1) == Some(q2 as int));
                assert(line2 =~= s@.subrange(k1 + 1, k2 as int));
            }
            let done: bool;
            if range_matches(s, k1 + 1, k2, "done = true") {
                done = true;
                proof {
                    assert(line2 == done_true_chars());
                }
            } else if range_matches(s, k1 + 1, k2, "done = false") {
                done = false;
                proof {
                    assert(line2 == done_false_chars());
                    assert(line2 != done_true_chars());
                }
            } else {
                proof {
                    assert(line2 != done_true_chars() && line2 != done_false_chars());
                    assert(decode_spec(u) is None);
                }
                return Err(TdError::ParseError);
            }
            proof {
                lemma_find_newline_in_suffix(s@, pos as int, k2 + 1);
            }
            let k3 = match find_nl(s, k2 + 1) {
                Some(k) => k,
                None => {
                    proof {
                        assert(find_newline(u, q2 + 1) is None);
                        assert(decode_spec(u) is None);
                    }
                    return Err(TdError::ParseError);
                },
            };
            let ghost q3 = k3 - pos;
            let ghost line3 = u.subrange(q2 + 1, q3 as int);
            proof {
                assert(find_newline(u, q2 + 1) == Some(q3 as int));
                assert(line3 =~= s@.subrange(k2 + 1, k3 as int));
                assert(line3.len() == k3 - k2 - 1);
            }
            if k3 - k2 - 1 < 9 {
                proof {
                    assert(line3.len() < 9);
                    assert(decode_spec(u) is None);
                }
                return Err(TdError::ParseError);
            }
            proof {
                assert(line3.take(8) =~= s@.subrange(k2 + 1, k2 + 9));
            }
            if !range_matches(s, k2 + 1, k2 + 9, "text = \"") {
                proof {
                    assert(line3.take(8) != text_prefix_chars());
                    assert(decode_spec(u) is None);
                }
                return Err(TdError::ParseError);
            }
            proof {
                assert(line3.take(8) == text_prefix_chars());
                assert(line3.last() == s@[k3 - 1]);
            }
            if s.get_char(k3 - 1) != '"' {
                proof {
                    assert(line3.last() != '"');
                    assert(decode_spec(u) is None);
                }
                return Err(TdError::ParseError);
            }
            proof {
                assert(line3.subrange(8, line3.len() - 1) =~= s@.subrange(k2 + 9, k3 - 1));
            }
            let txt = match unescape_range(s, k2 + 9, k3 - 1) {
                Some(t) => t,
                None => {
                    proof {
                        assert(unescape_text(line3.subrange(8, line3.len() - 1)) is None);
                        assert(decode_spec(u) is None);
                    }
                    return Err(TdError::ParseError);
                },
            };
            let ghost txtv = txt@;
            let ghost tv = TaskView { done, text: txtv };
            let mut task = Task::new(txt);
            if done {
                task.toggle_done();
            }
            proof {
                assert(task@ == tv);
            }
            acc.push(task);
            pos = k3 + 1;
            proof {
                assert(u.skip(q3 + 1) =~= s@.skip(pos as int));
                assert(unescape_text(line3.subrange(8, line3.len() - 1)) == Some(txtv));
                assert(decode_spec(u) == match decode_spec(s@.skip(pos as int)) {
                    Some(rest) => Some(seq![tv] + rest),
                    None => None::<Seq<TaskView>>,
                });
                assert(Seq::new(acc@.len(), |i: int| acc@[i]@) =~= acc0.push(tv));
                match decode_spec(s@.skip(pos as int)) {
                    Some(rest) => {
                        assert(acc0.push(tv) + rest =~= acc0 + (seq![tv] + rest));
                    },
                    None => {},
                }
            }
        }
        proof {
            assert(s@.skip(n as int) =~= Seq::<char>::empty());
            assert(decode_spec(s@.skip(n as int)) == Some(Seq::<TaskView>::empty()));
            let accv = Seq::new(acc@.len(), |i: int| acc@[i]@);
            assert(accv + Seq::<TaskView>::empty() =~= accv);
        }
        Ok(TaskList::from_vec(acc))
    }

    /// What was read from a session's task file, as a task list: a file
    /// that does not exist (`None`) is an empty list, not an error, and
    /// existing content is parsed as a stored document.
    pub fn load_from_contents(contents: Option<&str>) -> (r: Result<TaskList, TdError>)
        ensures
            contents is None ==> (r matches Ok(l) && l@ == Seq::<TaskView>::empty()),
            contents matches Some(s) ==> match r {
                Ok(l) => decode_spec(s@) == Some(l@),
                Err(e) => e == TdError::ParseError && decode_spec(s@) is None,
            },
    {
        match contents {
            None => Ok(TaskList::new()),
            Some(s) => TaskList::from_document(s),
        }
    }
}

} // verus!
