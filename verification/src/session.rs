use vstd::prelude::*;

use crate::codec::decode_spec;
use crate::errors::TdError;
use crate::tasks::count_undone_spec;
use crate::tasks::TaskList;

verus! {

/// The application's directory under the per-user data root.
pub open spec fn app_dir_spec(base: Seq<char>) -> Seq<char> {
    base + seq!['/', 't', 'd']
}

/// The directory that holds one session's task file.
pub open spec fn session_dir_spec(base: Seq<char>, name: Seq<char>) -> Seq<char> {
    app_dir_spec(base) + seq!['/'] + name
}

/// The path of one session's task file.
pub open spec fn tasks_file_spec(base: Seq<char>, name: Seq<char>) -> Seq<char> {
    session_dir_spec(base, name) + seq!['/', 't', 'a', 's', 'k', 's', '.', 't', 'o', 'm', 'l']
}

/// The path of the pointer file that names the current session.
pub open spec fn current_file_spec(base: Seq<char>) -> Seq<char> {
    app_dir_spec(base) + seq![
        '/',
        'c',
        'u',
        'r',
        'r',
        'e',
        'n',
        't',
        '_',
        's',
        'e',
        's',
        's',
        'i',
        'o',
        'n',
    ]
}

/// The session addressed when no pointer file names one.
pub open spec fn default_name_chars() -> Seq<char> {
    seq!['d', 'e', 'f', 'a', 'u', 'l', 't']
}

/// The white-space characters that reading the pointer file strips from
/// its ends (the Unicode white-space set).
pub open spec fn is_ws(c: char) -> bool {
    c as u32 == 0x20 || c as u32 == 0x9 || c as u32 == 0xA || c as u32 == 0xB || c as u32 == 0xC
        || c as u32 == 0xD || c as u32 == 0x85 || c as u32 == 0xA0 || c as u32 == 0x1680 || (0x2000
        <= c as u32 && c as u32 <= 0x200A) || c as u32 == 0x2028 || c as u32 == 0x2029 || c as u32
        == 0x202F || c as u32 == 0x205F || c as u32 == 0x3000
}

/// `s` with its leading white-space dropped.
pub open spec fn trim_start_spec(s: Seq<char>) -> Seq<char>
    decreases s.len(),
{
    if s.len() == 0 {
        s
    } else if is_ws(s[0]) {
        trim_start_spec(s.drop_first())
    } else {
        s
    }
}

/// `s` with its trailing white-space dropped.
pub open spec fn trim_end_spec(s: Seq<char>) -> Seq<char>
    decreases s.len(),
{
    if s.len() == 0 {
        s
    } else if is_ws(s.last()) {
        trim_end_spec(s.drop_last())
    } else {
        s
    }
}

/// `s` with white-space dropped from both ends.
pub open spec fn trim_spec(s: Seq<char>) -> Seq<char> {
    trim_end_spec(trim_start_spec(s))
}

/// Dropping leading white-space keeps exactly the suffix after the
/// first non-white character.
proof fn lemma_trim_start(s: Seq<char>, lo: int)
    requires
        0 <= lo <= s.len(),
        forall|j: int| 0 <= j < lo ==> is_ws(s[j]),
        lo < s.len() ==> !is_ws(s[lo]),
    ensures
        trim_start_spec(s) == s.skip(lo),
    decreases lo,
{
    if lo == 0 {
        assert(s.skip(0) =~= s);
    } else {
        lemma_trim_start(s.drop_first(), lo - 1);
        assert(s.drop_first().skip(lo - 1) =~= s.skip(lo));
    }
}

/// Dropping trailing white-space keeps exactly the prefix up to the
/// last non-white character.
proof fn lemma_trim_end(s: Seq<char>, hi: int)
    requires
        0 <= hi <= s.len(),
        forall|j: int| hi <= j < s.len() ==> is_ws(s[j]),
        hi > 0 ==> !is_ws(s[hi - 1]),
    ensures
        trim_end_spec(s) == s.take(hi),
    decreases s.len(),
{
    if hi == s.len() {
        if s.len() == 0 {
            assert(s.take(hi) =~= s);
        } else {
            assert(!is_ws(s.last()));
            assert(s.take(hi) =~= s);
        }
    } else {
        assert(is_ws(s.last()));
        lemma_trim_end(s.drop_last(), hi);
        assert(s.drop_last().take(hi) =~= s.take(hi));
    }
}

/// True when `c` is white-space in the sense of `is_ws`.
fn char_is_ws(c: char) -> (r: bool)
    ensures
        r == is_ws(c),
{
    let v = c as u32;
    v == 0x20 || v == 0x9 || v == 0xA || v == 0xB || v == 0xC || v == 0xD || v == 0x85 || v == 0xA0
        || v == 0x1680 || (0x2000 <= v && v <= 0x200A) || v == 0x2028 || v == 0x2029 || v == 0x202F
        || v == 0x205F || v == 0x3000
}

/// `s` with white-space dropped from both ends, as a fresh string.
fn trim(s: &str) -> (r: String)
    ensures
        r@ == trim_spec(s@),
{
    let n = s.unicode_len();
    let mut lo: usize = 0;
    while lo < n && char_is_ws(s.get_char(lo))
        invariant
            n == s@.len(),
            lo <= n,
            forall|j: int| 0 <= j < lo ==> is_ws(s@[j]),
        decreases n - lo,
    {
        lo = lo + 1;
    }
    let mut hi: usize = n;
    while hi > lo && char_is_ws(s.get_char(hi - 1))
        invariant
            n == s@.len(),
            lo <= hi <= n,
            forall|j: int| hi <= j < n ==> is_ws(s@[j]),
        decreases hi,
    {
        hi = hi - 1;
    }
    proof {
        lemma_trim_start(s@, lo as int);
        let u = s@.skip(lo as int);
        lemma_trim_end(u, hi - lo);
        assert(u.take(hi - lo) =~= s@.subrange(lo as int, hi as int));
    }
    let piece = s.substring_char(lo, hi);
    piece.to_owned()
}

/// A named task list, stored under its own directory below the data root.
pub struct Session {
    pub name: String,
}

impl Session {
    /// The directory under the data root that holds this session's file.
    pub fn get_session_dir(&self, base_dir: &str) -> (r: String)
        ensures
            r@ == session_dir_spec(base_dir@, self.name@),
    {
        proof {
            reveal_strlit("/td/");
            assert("/td/"@ =~= seq!['/', 't', 'd', '/']);
        }
        let mut p = base_dir.to_owned();
        p.append("/td/");
        p.append(self.name.as_str());
        proof {
            assert(p@ =~= session_dir_spec(base_dir@, self.name@));
        }
        p
    }

    /// The path of this session's task file below the data root.  The
    /// caller is in charge of creating the directory before using it.
    pub fn get_session_tasks_file(&self, base_dir: &str) -> (r: String)
        ensures
            r@ == tasks_file_spec(base_dir@, self.name@),
    {
        proof {
            reveal_strlit("/tasks.toml");
            assert("/tasks.toml"@ =~= seq!['/', 't', 'a', 's', 'k', 's', '.', 't', 'o', 'm', 'l']);
        }
        let mut p = self.get_session_dir(base_dir);
        p.append("/tasks.toml");
        proof {
            assert(p@ =~= tasks_file_spec(base_dir@, self.name@));
        }
        p
    }

    /// The path of the pointer file that names the current session.
    pub fn current_session_file(base_dir: &str) -> (r: String)
        ensures
            r@ == current_file_spec(base_dir@),
    {
        proof {
            reveal_strlit("/td/current_session");
            assert("/td/current_session"@ =~= seq![
                '/',
                't',
                'd',
                '/',
                'c',
                'u',
                'r',
                'r',
                'e',
                'n',
                't',
                '_',
                's',
                'e',
                's',
                's',
                'i',
                'o',
                'n',
            ]);
        }
        let mut p = base_dir.to_owned();
        p.append("/td/current_session");
        proof {
            assert(p@ =~= current_file_spec(base_dir@));
        }
        p
    }

    /// The session that commands act on: the trimmed contents of the
    /// pointer file, or the default name when that file is absent or
    /// unreadable (`None`).  Resolution itself never fails.
    pub fn get_current_session(pointer_contents: Option<&str>) -> (r: Session)
        ensures
            r.name@ == match pointer_contents {
                Some(s) => trim_spec(s@),
                None => default_name_chars(),
            },
    {
        match pointer_contents {
            Some(s) => Session { name: trim(s) },
            None => {
                proof {
                    reveal_strlit("default");
                    assert("default"@ =~= default_name_chars());
                }
                Session { name: String::from_str("default") }
            },
        }
    }

    /// The handle for the session that a switch makes current.  Writing
    /// the new name into the pointer file is the caller's part.
    pub fn set_current_sesion(session: &str) -> (r: Session)
        ensures
            r.name@ == session@,
    {
        Session { name: session.to_owned() }
    }

    /// The sessions that exist under the data root, one per directory
    /// name.  Callers enumerate the directories and hand the names in;
    /// the order is theirs and no other order is promised.
    pub fn get_sessions(dir_names: Vec<String>) -> (r: Vec<Session>)
        ensures
            r@.len() == dir_names@.len(),
            forall|i: int| 0 <= i < r@.len() ==> r@[i].name@ == dir_names@[i]@,
    {
        let mut out: Vec<Session> = Vec::new();
        let mut i: usize = 0;
        while i < dir_names.len()
            invariant
                i <= dir_names@.len(),
                out@.len() == i,
                forall|k: int| 0 <= k < i ==> out@[k].name@ == dir_names@[k]@,
            decreases dir_names@.len() - i,
        {
            let name = dir_names[i].clone();
            out.push(Session { name });
            i = i + 1;
        }
        out
    }

    /// How many tasks of this session's stored file are still open:
    /// a missing file (`None`) holds none, malformed content is a
    /// `ParseError`.
    pub fn count_undone_tasks_in_session(&self, contents: Option<&str>) -> (r: Result<
        usize,
        TdError,
    >)
        ensures
            match contents {
                None => r == Ok::<usize, TdError>(0),
                Some(s) => match decode_spec(s@) {
                    Some(l) => r matches Ok(c) && c as nat == count_undone_spec(l),
                    None => r == Err::<usize, TdError>(TdError::ParseError),
                },
            },
    {
        match TaskList::load_from_contents(contents) {
            Ok(list) => Ok(list.count_undone()),
            Err(e) => Err(e),
        }
    }
}

} // verus!
