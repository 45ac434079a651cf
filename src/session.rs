//! What the session store decides: file names, which files are sessions,
//! and whether a stored session is the one asked for.

use vstd::prelude::*;
use crate::tracker::SerializedSession;
use crate::text::{path_join, join_file_path};

verus! {

/// Why the session store failed.
#[derive(Debug)]
pub enum PersistenceError {
    Io(String),
    JsonSerialization(String),
    SessionNotFound(String),
}

impl PersistenceError {
    pub open spec fn text(&self) -> Seq<char> {
        match self {
            PersistenceError::Io(s) => "IO error: "@ + s@,
            PersistenceError::JsonSerialization(s) => "JSON serialization error: "@ + s@,
            PersistenceError::SessionNotFound(s) => "Session not found: "@ + s@,
        }
    }

    /// The human-readable text of the error.
    pub fn message(&self) -> (r: String)
        ensures
            r@ == self.text(),
    {
        match self {
            PersistenceError::Io(s) => String::from_str("IO error: ").concat(s.as_str()),
            PersistenceError::JsonSerialization(s) => String::from_str("JSON serialization error: ").concat(
                s.as_str(),
            ),
            PersistenceError::SessionNotFound(s) => String::from_str("Session not found: ").concat(s.as_str()),
        }
    }
}

/// Orders texts as `String` does: character by character by code point,
/// a prefix before the longer text.
pub open spec fn text_le(a: Seq<char>, b: Seq<char>) -> bool
    decreases a.len(),
{
    if a.len() == 0 {
        true
    } else if b.len() == 0 {
        false
    } else if a[0] != b[0] {
        (a[0] as u32) < (b[0] as u32)
    } else {
        text_le(a.drop_first(), b.drop_first())
    }
}

pub open spec fn sorted_texts(s: Seq<Seq<char>>) -> bool {
    forall|i: int, j: int| 0 <= i < j < s.len() ==> text_le(s[i], s[j])
}

/// Relies on `slice::sort_unstable`: the same names, in ascending order of
/// `String`, which compares the UTF-8 bytes and so orders by code point.
#[verifier::external_body]
fn sort_names(names: &mut Vec<String>)
    ensures
        final(names).deep_view().to_multiset() == old(names).deep_view().to_multiset(),
        sorted_texts(final(names).deep_view()),
{
    names.sort_unstable()
}

/// The error text for a stored session found under another name.
pub open spec fn mismatch_text(requested: Seq<char>, found: Seq<char>) -> Seq<char> {
    "Session name mismatch: expected '"@ + requested + "', found '"@ + found
        + "'. If loading from a backup, rename the file to match the session name."@
}

pub open spec fn json_suffix() -> Seq<char> {
    seq!['.', 'j', 's', 'o', 'n']
}

/// The session that a file stands for: the name before a `.json`
/// extension, which must not be empty.
pub open spec fn session_name_of(file_name: Seq<char>) -> Option<Seq<char>> {
    let n = file_name.len();
    if n > 5 && file_name.subrange(n - 5, n as int) == json_suffix() {
        Some(file_name.subrange(0, n - 5))
    } else {
        None
    }
}

/// The sessions that a list of file names stands for, in order.
pub open spec fn session_names_of(files: Seq<Seq<char>>) -> Seq<Seq<char>>
    decreases files.len(),
{
    if files.len() == 0 {
        Seq::empty()
    } else {
        let prev = session_names_of(files.drop_last());
        match session_name_of(files.last()) {
            Some(s) => prev.push(s),
            None => prev,
        }
    }
}

proof fn lemma_session_name_injective(f: Seq<char>, g: Seq<char>)
    requires
        session_name_of(f) is Some,
        session_name_of(f) == session_name_of(g),
    ensures
        f == g,
{
    let n = f.len();
    let k = g.len();
    assert(f =~= f.subrange(0, n - 5) + f.subrange(n - 5, n as int));
    assert(g =~= g.subrange(0, k - 5) + g.subrange(k - 5, k as int));
}

proof fn lemma_session_names_member(d: Seq<Seq<char>>, x: Seq<char>)
    requires
        session_names_of(d).contains(x),
    ensures
        exists|k: int| 0 <= k < d.len() && session_name_of(#[trigger] d[k]) == Some(x),
    decreases d.len(),
{
    let prev = session_names_of(d.drop_last());
    if prev.contains(x) {
        lemma_session_names_member(d.drop_last(), x);
        let k = choose|k: int| 0 <= k < d.len() - 1 && session_name_of(#[trigger] d.drop_last()[k]) == Some(x);
        assert(d[k] == d.drop_last()[k]);
    } else {
        assert(session_name_of(d[d.len() - 1]) == Some(x));
    }
}

/// Distinct file names stand for distinct sessions.
pub proof fn lemma_session_names_distinct(d: Seq<Seq<char>>)
    requires
        d.no_duplicates(),
    ensures
        session_names_of(d).no_duplicates(),
    decreases d.len(),
{
    if d.len() > 0 {
        let dl = d.drop_last();
        assert(dl.no_duplicates());
        lemma_session_names_distinct(dl);
        let prev = session_names_of(dl);
        if let Some(x) = session_name_of(d.last()) {
            if prev.contains(x) {
                lemma_session_names_member(dl, x);
                let k = choose|k: int| 0 <= k < dl.len() && session_name_of(#[trigger] dl[k]) == Some(x);
                lemma_session_name_injective(dl[k], d.last());
                assert(d[k] == d[d.len() - 1]);
            }
            let t = prev.push(x);
            assert forall|a: int, b: int| 0 <= a < t.len() && 0 <= b < t.len() && a != b implies t[a] != t[b] by {
                if a < prev.len() && b < prev.len() {
                } else if a < prev.len() {
                    assert(prev.contains(t[a]));
                } else {
                    assert(prev.contains(t[b]));
                }
            }
        }
    }
}

/// The session that a file name stands for, if any.
pub fn session_name_from_file(file_name: &String) -> (r: Option<String>)
    ensures
        match r {
            Some(s) => session_name_of(file_name@) == Some(s@),
            None => session_name_of(file_name@) is None,
        },
{
    let f = file_name.as_str();
    let n = f.unicode_len();
    if n <= 5 {
        return None;
    }
    let ok = f.get_char(n - 5) == '.' && f.get_char(n - 4) == 'j' && f.get_char(n - 3) == 's'
        && f.get_char(n - 2) == 'o' && f.get_char(n - 1) == 'n';
    proof {
        let tail = file_name@.subrange(n - 5, n as int);
        if ok {
            assert(tail =~= json_suffix());
        } else {
            if tail == json_suffix() {
                assert(tail[0] == file_name@[n - 5]);
                assert(tail[1] == file_name@[n - 4]);
                assert(tail[2] == file_name@[n - 3]);
                assert(tail[3] == file_name@[n - 2]);
                assert(tail[4] == file_name@[n - 1]);
            }
        }
    }
    if ok {
        Some(String::from_str(f.substring_char(0, n - 5)))
    } else {
        None
    }
}

/// The file name of a session.
pub fn session_file_name(session_name: &str) -> (r: String)
    ensures
        r@ == session_name@ + json_suffix(),
{
    proof {
        reveal_strlit(".json");
    }
    String::from_str(session_name).concat(".json")
}

/// The name under which a session is written before it replaces the file.
pub fn temp_file_name(session_name: &str) -> (r: String)
    ensures
        r@ == session_name@ + json_suffix() + seq!['.', 't', 'm', 'p'],
{
    proof {
        reveal_strlit(".json.tmp");
        assert(".json.tmp"@ =~= json_suffix() + seq!['.', 't', 'm', 'p']);
    }
    let r = String::from_str(session_name).concat(".json.tmp");
    assert(r@ =~= session_name@ + json_suffix() + seq!['.', 't', 'm', 'p']);
    r
}

/// The file name of a backup of a session taken at `timestamp`.
pub fn backup_file_name(session_name: &str, timestamp: &str) -> (r: String)
    ensures
        r@ == session_name@ + seq!['_'] + timestamp@ + json_suffix(),
{
    proof {
        reveal_strlit("_");
        reveal_strlit(".json");
    }
    let r = String::from_str(session_name).concat("_").concat(timestamp).concat(".json");
    assert(r@ =~= session_name@ + seq!['_'] + timestamp@ + json_suffix());
    r
}

/// Stateless access to the sessions kept in one directory.
pub struct SessionLoader {
    save_directory: String,
}

impl SessionLoader {
    pub closed spec fn directory(&self) -> Seq<char> {
        self.save_directory@
    }

    pub fn new(save_directory: String) -> (r: SessionLoader)
        ensures
            r.directory() == save_directory@,
    {
        SessionLoader { save_directory }
    }

    /// The sessions directory under the platform's data directory, or
    /// under the home directory when there is no data directory.
    pub fn with_default_directory(data_dir: Option<String>, home_dir: Option<String>) -> (r: Result<
        SessionLoader,
        PersistenceError,
    >)
        ensures
            data_dir matches Some(d) ==> (r matches Ok(l) && l.directory() == path_join(
                path_join(d@, "browser_timer"@),
                "sessions"@,
            )),
            data_dir is None ==> (home_dir matches Some(h) ==> (r matches Ok(l) && l.directory()
                == path_join(path_join(h@, "browser_timer"@), "sessions"@))),
            data_dir is None && home_dir is None ==> (r matches Err(e) && e is Io),
    {
        let base = match data_dir {
            Some(d) => d,
            None => match home_dir {
                Some(h) => h,
                None => {
                    return Err(PersistenceError::Io(String::from_str("Could not determine default save directory")));
                },
            },
        };
        let app_dir = join_file_path(base.as_str(), "browser_timer");
        let dir = join_file_path(app_dir.as_str(), "sessions");
        Ok(SessionLoader::new(dir))
    }

    pub fn get_save_directory(&self) -> (r: &str)
        ensures
            r@ == self.directory(),
    {
        self.save_directory.as_str()
    }

    /// The sessions that the files of the directory stand for, sorted.
    pub fn list_sessions(&self, file_names: &Vec<String>) -> (r: Vec<String>)
        ensures
            r.deep_view().to_multiset() == session_names_of(file_names.deep_view()).to_multiset(),
            sorted_texts(r.deep_view()),
            file_names.deep_view().no_duplicates() ==> r.deep_view().no_duplicates(),
    {
        let ghost d = file_names.deep_view();
        let mut r: Vec<String> = Vec::new();
        let mut i: usize = 0;
        while i < file_names.len()
            invariant
                d == file_names.deep_view(),
                i <= d.len(),
                r.deep_view() == session_names_of(d.take(i as int)),
            decreases d.len() - i,
        {
            proof {
                assert(d.take(i as int + 1).drop_last() =~= d.take(i as int));
                assert(d.take(i as int + 1).last() == file_names@[i as int]@);
            }
            match session_name_from_file(&file_names[i]) {
                Some(s) => {
                    let ghost before = r.deep_view();
                    r.push(s);
                    proof {
                        assert(r.deep_view() =~= before.push(s@));
                    }
                },
                None => {},
            }
            i = i + 1;
        }
        proof {
            assert(d.take(d.len() as int) =~= d);
        }
        sort_names(&mut r);
        proof {
            if d.no_duplicates() {
                lemma_session_names_distinct(d);
                session_names_of(d).lemma_multiset_has_no_duplicates();
                r.deep_view().lemma_multiset_has_no_duplicates_conv();
            }
        }
        r
    }

    /// Accepts a stored session only under the name it was asked for.
    pub fn check_loaded_session(&self, session_name: &str, session: SerializedSession) -> (r: Result<
        SerializedSession,
        PersistenceError,
    >)
        ensures
            r is Ok <==> session.session_name@ == session_name@,
            r matches Ok(s) ==> s == session,
            r matches Err(e) ==> (e matches PersistenceError::JsonSerialization(m) && m@ == mismatch_text(
                session_name@,
                session.session_name@,
            )),
    {
        let requested = String::from_str(session_name);
        if session.session_name == requested {
            Ok(session)
        } else {
            let msg = String::from_str("Session name mismatch: expected '").concat(session_name).concat(
                "', found '",
            ).concat(session.session_name.as_str()).concat(
                "'. If loading from a backup, rename the file to match the session name.",
            );
            Err(PersistenceError::JsonSerialization(msg))
        }
    }

    /// The session read from the store under `session_name`, given what the
    /// store held under that name: none gives `SessionNotFound`, a session
    /// stored under another name gives the mismatch error.
    pub fn load_session(&self, session_name: &str, stored: Option<SerializedSession>) -> (r: Result<
        SerializedSession,
        PersistenceError,
    >)
        ensures
            stored is None ==> (r matches Err(PersistenceError::SessionNotFound(n)) && n@ == session_name@),
            stored matches Some(s) ==> (s.session_name@ == session_name@ <==> r is Ok),
            stored matches Some(s) ==> (r matches Ok(l) ==> l == s),
            stored matches Some(s) ==> (r matches Err(e) ==> (e matches PersistenceError::JsonSerialization(m)
                && m@ == mismatch_text(session_name@, s.session_name@))),
    {
        match stored {
            Some(s) => self.check_loaded_session(session_name, s),
            None => Err(PersistenceError::SessionNotFound(String::from_str(session_name))),
        }
    }
}

} // verus!
