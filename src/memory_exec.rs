//! A deterministic in-memory backend that records which paths would be
//! created, for checking what the evaluator does without touching storage.
use vstd::prelude::*;
use crate::errors::{Error, ExecResult};
use crate::lexer::str_eq;
use crate::traits::{contents_view, BackendCall, Exec, FileContents, Request};

verus! {

/// The recorded state: directories and files (with their contents) in the
/// order they were first created, each at most once.
pub struct FsModel {
    pub dirs: Seq<Seq<char>>,
    pub files: Seq<Seq<char>>,
    pub contents: Seq<Seq<char>>,
}

/// The last position of `p` in `s`, or -1.
pub open spec fn rfind(s: Seq<Seq<char>>, p: Seq<char>) -> int
    decreases s.len(),
{
    if s.len() == 0 {
        -1
    } else if s.last() == p {
        s.len() - 1
    } else {
        rfind(s.drop_last(), p)
    }
}

/// The state after ensuring that directory `p` exists; `None` where a file
/// is in the way.
pub open spec fn ensure_dir_step(m: FsModel, p: Seq<char>) -> Option<FsModel> {
    if rfind(m.files, p) >= 0 {
        None
    } else if rfind(m.dirs, p) >= 0 {
        Some(m)
    } else {
        Some(FsModel { dirs: m.dirs.push(p), ..m })
    }
}

/// The state after ensuring that file `p` exists: an existing file is left
/// as it is, a new one is empty; `None` where a directory is in the way.
pub open spec fn ensure_file_step(m: FsModel, p: Seq<char>) -> Option<FsModel> {
    if rfind(m.dirs, p) >= 0 {
        None
    } else if rfind(m.files, p) >= 0 {
        Some(m)
    } else {
        Some(FsModel { files: m.files.push(p), contents: m.contents.push(seq![]), ..m })
    }
}

/// The state after making file `p` hold exactly `c`; `None` where a
/// directory is in the way.
pub open spec fn write_file_step(m: FsModel, p: Seq<char>, c: Seq<char>) -> Option<FsModel> {
    if rfind(m.dirs, p) >= 0 {
        None
    } else if rfind(m.files, p) >= 0 {
        Some(FsModel { contents: m.contents.update(rfind(m.files, p), c), ..m })
    } else {
        Some(FsModel { files: m.files.push(p), contents: m.contents.push(c), ..m })
    }
}

/// What file `p` holds, if it exists.
pub open spec fn content_of(m: FsModel, p: Seq<char>) -> Option<Seq<char>> {
    if rfind(m.files, p) >= 0 {
        Some(m.contents[rfind(m.files, p)])
    } else {
        None
    }
}

pub open spec fn wf_model(m: FsModel) -> bool {
    m.files.len() == m.contents.len()
}

pub proof fn lemma_rfind_bounds(s: Seq<Seq<char>>, p: Seq<char>)
    ensures
        -1 <= rfind(s, p) < s.len(),
        rfind(s, p) >= 0 ==> s[rfind(s, p)] == p,
    decreases s.len(),
{
    if s.len() > 0 && s.last() != p {
        lemma_rfind_bounds(s.drop_last(), p);
    }
}

pub proof fn lemma_rfind_push(s: Seq<Seq<char>>, x: Seq<char>, p: Seq<char>)
    ensures
        rfind(s.push(x), p) == if x == p {
            s.len() as int
        } else {
            rfind(s, p)
        },
{
    assert(s.push(x).drop_last() =~= s);
}

/// Ensuring a directory twice: the second call succeeds and changes nothing.
pub proof fn lemma_ensure_directory_idempotent(m: FsModel, p: Seq<char>)
    requires
        ensure_dir_step(m, p) is Some,
    ensures
        ensure_dir_step(ensure_dir_step(m, p)->Some_0, p) == ensure_dir_step(m, p),
{
    lemma_rfind_push(m.dirs, p, p);
}

/// Ensuring a file twice: the second call succeeds and changes nothing.
pub proof fn lemma_ensure_file_exists_idempotent(m: FsModel, p: Seq<char>)
    requires
        ensure_file_step(m, p) is Some,
    ensures
        ensure_file_step(ensure_file_step(m, p)->Some_0, p) == ensure_file_step(m, p),
{
    lemma_rfind_push(m.files, p, p);
}

/// Writing the same contents twice: the second write succeeds and changes
/// nothing.
pub proof fn lemma_ensure_file_contents_idempotent(m: FsModel, p: Seq<char>, c: Seq<char>)
    requires
        wf_model(m),
        write_file_step(m, p, c) is Some,
    ensures
        write_file_step(write_file_step(m, p, c)->Some_0, p, c) == write_file_step(m, p, c),
{
    lemma_rfind_push(m.files, p, p);
    lemma_rfind_bounds(m.files, p);
    let m1 = write_file_step(m, p, c)->Some_0;
    if rfind(m.files, p) >= 0 {
        assert(m1.contents.update(rfind(m.files, p), c) =~= m1.contents);
    } else {
        assert(m1.contents.update(m.files.len() as int, c) =~= m1.contents);
    }
}

/// A write overwrites whatever an earlier one left: writing `c1` and then
/// `c2` gives the state that writing `c2` alone gives, and the file holds `c2`.
pub proof fn lemma_ensure_file_contents_overwrites(
    m: FsModel,
    p: Seq<char>,
    c1: Seq<char>,
    c2: Seq<char>,
)
    requires
        wf_model(m),
        write_file_step(m, p, c1) is Some,
    ensures
        write_file_step(write_file_step(m, p, c1)->Some_0, p, c2) == write_file_step(m, p, c2),
        content_of(write_file_step(m, p, c2)->Some_0, p) == Some(c2),
{
    lemma_rfind_push(m.files, p, p);
    lemma_rfind_bounds(m.files, p);
    let m1 = write_file_step(m, p, c1)->Some_0;
    let m2 = write_file_step(m, p, c2)->Some_0;
    if rfind(m.files, p) >= 0 {
        assert(m1.contents.update(rfind(m.files, p), c2) =~= m2.contents);
    } else {
        assert(m1.contents.update(m.files.len() as int, c2) =~= m2.contents);
    }
}

pub open spec fn trim_end_slash(s: Seq<char>) -> Seq<char>
    decreases s.len(),
{
    if s.len() > 0 && s.last() == '/' {
        trim_end_slash(s.drop_last())
    } else {
        s
    }
}

pub open spec fn trim_start_slash(s: Seq<char>) -> Seq<char>
    decreases s.len(),
{
    if s.len() > 0 && s[0] == '/' {
        trim_start_slash(s.drop_first())
    } else {
        s
    }
}

/// The text with every `./` taken out, scanning from the left.
pub open spec fn drop_dot_slash(s: Seq<char>) -> Seq<char>
    decreases s.len(),
{
    if s.len() >= 2 && s[0] == '.' && s[1] == '/' {
        drop_dot_slash(s.skip(2))
    } else if s.len() > 0 {
        seq![s[0]] + drop_dot_slash(s.skip(1))
    } else {
        s
    }
}

/// Where the in-memory backend with working directory `cwd` records local
/// part `p`: both without `./` segments, joined by one separator.
pub open spec fn join_path(cwd: Seq<char>, p: Seq<char>) -> Seq<char> {
    drop_dot_slash(trim_end_slash(cwd)) + seq!['/'] + drop_dot_slash(trim_start_slash(p))
}

fn trim_end_slash_str(s: &str) -> (r: &str)
    ensures
        r@ == trim_end_slash(s@),
{
    let n = s.unicode_len();
    let mut e: usize = n;
    assert(s@.subrange(0, n as int) =~= s@);
    while e > 0 && s.get_char(e - 1) == '/'
        invariant
            n == s@.len(),
            e <= n,
            trim_end_slash(s@) == trim_end_slash(s@.subrange(0, e as int)),
        decreases e,
    {
        assert(s@.subrange(0, e as int).drop_last() =~= s@.subrange(0, e - 1));
        e = e - 1;
    }
    s.substring_char(0, e)
}

fn trim_start_slash_str(s: &str) -> (r: &str)
    ensures
        r@ == trim_start_slash(s@),
{
    let n = s.unicode_len();
    let mut a: usize = 0;
    assert(s@.subrange(0, n as int) =~= s@);
    while a < n && s.get_char(a) == '/'
        invariant
            n == s@.len(),
            a <= n,
            trim_start_slash(s@) == trim_start_slash(s@.subrange(a as int, n as int)),
        decreases n - a,
    {
        assert(s@.subrange(a as int, n as int).drop_first() =~= s@.subrange(a + 1, n as int));
        a = a + 1;
    }
    s.substring_char(a, n)
}

fn remove_dot_slash(s: &str) -> (r: String)
    ensures
        r@ == drop_dot_slash(s@),
{
    let n = s.unicode_len();
    let mut r = String::new();
    let mut k: usize = 0;
    assert(s@.subrange(0, n as int) =~= s@);
    while k < n
        invariant
            n == s@.len(),
            k <= n,
            r@ + drop_dot_slash(s@.subrange(k as int, n as int)) == drop_dot_slash(s@),
        decreases n - k,
    {
        let ghost rest = s@.subrange(k as int, n as int);
        if k + 1 < n && s.get_char(k) == '.' && s.get_char(k + 1) == '/' {
            assert(rest.skip(2) =~= s@.subrange(k + 2, n as int));
            k = k + 2;
        } else {
            assert(rest.skip(1) =~= s@.subrange(k + 1, n as int));
            let ghost prev = r@;
            r.append(s.substring_char(k, k + 1));
            assert(s@.subrange(k as int, k + 1) =~= seq![rest[0]]);
            assert(r@ + drop_dot_slash(s@.subrange(k + 1, n as int)) =~= prev + drop_dot_slash(rest));
            k = k + 1;
        }
    }
    assert(r@ + drop_dot_slash(s@.subrange(n as int, n as int)) =~= r@);
    r
}

fn join_paths(cwd: &str, p: &str) -> (r: String)
    ensures
        r@ == join_path(cwd@, p@),
{
    let mut r = remove_dot_slash(trim_end_slash_str(cwd));
    r.append("/");
    proof {
        reveal_strlit("/");
        assert("/"@ =~= seq!['/']);
    }
    let tail = remove_dot_slash(trim_start_slash_str(p));
    r.append(tail.as_str());
    r
}

pub open spec fn paths_view(v: Seq<String>) -> Seq<Seq<char>> {
    v.map_values(|s: String| s@)
}

/// The last position of `p` among the strings of `v`.
fn rfind_str(v: &Vec<String>, p: &str) -> (r: Option<usize>)
    ensures
        match r {
            Some(k) => rfind(paths_view(v@), p@) == k as int,
            None => rfind(paths_view(v@), p@) == -1,
        },
{
    let mut j: usize = v.len();
    assert(paths_view(v@).subrange(0, j as int) =~= paths_view(v@));
    while j > 0
        invariant
            j <= v@.len(),
            rfind(paths_view(v@), p@) == rfind(paths_view(v@).subrange(0, j as int), p@),
        decreases j,
    {
        assert(paths_view(v@).subrange(0, j as int).drop_last() =~= paths_view(v@).subrange(
            0,
            j - 1,
        ));
        if str_eq(v[j - 1].as_str(), p) {
            return Some(j - 1);
        }
        j = j - 1;
    }
    None
}

/// The state of a backend that has done nothing yet.
pub open spec fn empty_model() -> FsModel {
    FsModel { dirs: seq![], files: seq![], contents: seq![] }
}

/// The state after operation `c` from `m`, for a backend whose working
/// directory is `cwd`; `None` where the operation cannot be done.
pub open spec fn apply_call(m: FsModel, cwd: Seq<char>, c: BackendCall) -> Option<FsModel> {
    match c {
        BackendCall::EnsureDirectory(p) => ensure_dir_step(m, join_path(cwd, p)),
        BackendCall::EnsureFile(p) => ensure_file_step(m, join_path(cwd, p)),
        BackendCall::WriteFile(p, x) => write_file_step(m, join_path(cwd, p), x),
    }
}

/// The state after request `q` from `m`, where its answer is the right one:
/// success exactly when the operation can be done. `None` where it is not.
pub open spec fn replay_one(m: FsModel, cwd: Seq<char>, q: Request) -> Option<FsModel> {
    match apply_call(m, cwd, q.0) {
        Some(m1) => if q.1 is Ok {
            Some(m1)
        } else {
            None
        },
        None => if q.1 is Err {
            Some(m)
        } else {
            None
        },
    }
}

/// The state that the requests `reqs` leave from `m`, each answered rightly.
pub open spec fn replay(m: FsModel, cwd: Seq<char>, reqs: Seq<Request>) -> Option<FsModel>
    decreases reqs.len(),
{
    if reqs.len() == 0 {
        Some(m)
    } else {
        match replay(m, cwd, reqs.drop_last()) {
            Some(m0) => replay_one(m0, cwd, reqs.last()),
            None => None,
        }
    }
}

proof fn lemma_replay_push(m: FsModel, cwd: Seq<char>, reqs: Seq<Request>, q: Request)
    ensures
        replay(m, cwd, reqs.push(q)) == match replay(m, cwd, reqs) {
            Some(m0) => replay_one(m0, cwd, q),
            None => None,
        },
{
    assert(reqs.push(q).drop_last() =~= reqs);
}

/// A backend that keeps in memory which directories and files it was asked
/// to create, and what each file holds.
pub struct MemoryExec {
    cwd: String,
    dirs: Vec<String>,
    files: Vec<String>,
    contents: Vec<String>,
    reqs: Ghost<Seq<Request>>,
}

impl MemoryExec {
    pub closed spec fn model(&self) -> FsModel {
        FsModel {
            dirs: paths_view(self.dirs@),
            files: paths_view(self.files@),
            contents: paths_view(self.contents@),
        }
    }

    pub closed spec fn cwd_view(&self) -> Seq<char> {
        self.cwd@
    }

    /// An empty backend whose paths are recorded relative to `cwd`.
    pub fn new(cwd: &str) -> (r: Self)
        ensures
            r.cwd_view() == cwd@,
            r.model() == empty_model(),
            r.requests().len() == 0,
            r.inv(),
    {
        let r = MemoryExec {
            cwd: String::from_str(cwd),
            dirs: Vec::new(),
            files: Vec::new(),
            contents: Vec::new(),
            reqs: Ghost(Seq::empty()),
        };
        assert(paths_view(r.dirs@) =~= seq![]);
        assert(paths_view(r.files@) =~= seq![]);
        assert(paths_view(r.contents@) =~= seq![]);
        r
    }

    /// The directories created, in order.
    pub fn created_dirs(&self) -> (r: &Vec<String>)
        ensures
            paths_view(r@) == self.model().dirs,
    {
        &self.dirs
    }

    /// The files created, in order.
    pub fn created_files(&self) -> (r: &Vec<String>)
        ensures
            paths_view(r@) == self.model().files,
    {
        &self.files
    }

    /// What the recorded file at `path` holds, if there is one.
    pub fn file_contents(&self, path: &str) -> (r: Option<String>)
        requires
            self.inv(),
        ensures
            match content_of(self.model(), path@) {
                Some(c) => r matches Some(x) && x@ == c,
                None => r is None,
            },
    {
        proof {
            lemma_rfind_bounds(paths_view(self.files@), path@);
        }
        match rfind_str(&self.files, path) {
            Some(k) => Some(self.contents[k].clone()),
            None => None,
        }
    }
}

impl Exec for MemoryExec {
    closed spec fn requests(&self) -> Seq<Request> {
        self.reqs@
    }

    /// The state is what replaying the requests from an empty state gives.
    open spec fn inv(&self) -> bool {
        &&& wf_model(self.model())
        &&& replay(empty_model(), self.cwd_view(), self.requests()) == Some(self.model())
    }

    /// The working directory stays as it is.
    fn change_directory(&mut self, dir: &str) -> (r: ExecResult<()>)
        ensures
            r is Ok,
            *final(self) == *old(self),
    {
        Ok(())
    }

    fn ensure_directory(&mut self, local_part: &str) -> (r: ExecResult<()>)
        ensures
            final(self).cwd_view() == old(self).cwd_view(),
            match ensure_dir_step(old(self).model(), join_path(old(self).cwd_view(), local_part@)) {
                Some(m) => r is Ok && final(self).model() == m,
                None => r matches Err(e) && e.repr is Backend && final(self).model() == old(
                    self,
                ).model(),
            },
    {
        let full = join_paths(self.cwd.as_str(), local_part);
        let r = if rfind_str(&self.files, full.as_str()).is_some() {
            Err(Error::backend(String::from_str("a file is in the way")))
        } else {
            if rfind_str(&self.dirs, full.as_str()).is_none() {
                let ghost prev = self.dirs@;
                self.dirs.push(full);
                assert(paths_view(self.dirs@) =~= paths_view(prev).push(full@));
            }
            Ok(())
        };
        let ghost q = (BackendCall::EnsureDirectory(local_part@), r);
        self.reqs = Ghost(self.reqs@.push(q));
        proof {
            lemma_replay_push(empty_model(), self.cwd@, old(self).reqs@, q);
        }
        r
    }

    fn ensure_file_exists(&mut self, local_part: &str) -> (r: ExecResult<()>)
        ensures
            final(self).cwd_view() == old(self).cwd_view(),
            match ensure_file_step(old(self).model(), join_path(old(self).cwd_view(), local_part@)) {
                Some(m) => r is Ok && final(self).model() == m,
                None => r matches Err(e) && e.repr is Backend && final(self).model() == old(
                    self,
                ).model(),
            },
    {
        let full = join_paths(self.cwd.as_str(), local_part);
        let r = if rfind_str(&self.dirs, full.as_str()).is_some() {
            Err(Error::backend(String::from_str("a directory is in the way")))
        } else {
            if rfind_str(&self.files, full.as_str()).is_none() {
                let ghost pf = self.files@;
                let ghost pc = self.contents@;
                self.files.push(full);
                self.contents.push(String::new());
                assert(paths_view(self.files@) =~= paths_view(pf).push(full@));
                assert(paths_view(self.contents@) =~= paths_view(pc).push(seq![]));
            }
            Ok(())
        };
        let ghost q = (BackendCall::EnsureFile(local_part@), r);
        self.reqs = Ghost(self.reqs@.push(q));
        proof {
            lemma_replay_push(empty_model(), self.cwd@, old(self).reqs@, q);
        }
        r
    }

    fn ensure_file_contents(&mut self, local_part: &str, contents: FileContents) -> (r: ExecResult<
        (),
    >)
        ensures
            final(self).cwd_view() == old(self).cwd_view(),
            old(self).inv() ==> match write_file_step(
                old(self).model(),
                join_path(old(self).cwd_view(), local_part@),
                contents_view(contents),
            ) {
                Some(m) => r is Ok && final(self).model() == m,
                None => r matches Err(e) && e.repr is Backend && final(self).model() == old(
                    self,
                ).model(),
            },
    {
        let ghost cv = contents_view(contents);
        let FileContents::StaticString(c) = contents;
        let full = join_paths(self.cwd.as_str(), local_part);
        proof {
            lemma_rfind_bounds(paths_view(self.files@), full@);
        }
        let r = if rfind_str(&self.dirs, full.as_str()).is_some() {
            Err(Error::backend(String::from_str("a directory is in the way")))
        } else {
            match rfind_str(&self.files, full.as_str()) {
                Some(k) => {
                    if k < self.contents.len() {
                        let ghost pc = self.contents@;
                        self.contents.set(k, c);
                        assert(paths_view(self.contents@) =~= paths_view(pc).update(k as int, c@));
                    }
                },
                None => {
                    let ghost pf = self.files@;
                    let ghost pc = self.contents@;
                    self.files.push(full);
                    self.contents.push(c);
                    assert(paths_view(self.files@) =~= paths_view(pf).push(full@));
                    assert(paths_view(self.contents@) =~= paths_view(pc).push(c@));
                },
            }
            Ok(())
        };
        let ghost q = (BackendCall::WriteFile(local_part@, cv), r);
        self.reqs = Ghost(self.reqs@.push(q));
        proof {
            lemma_replay_push(empty_model(), self.cwd@, old(self).reqs@, q);
        }
        r
    }

    fn get_cwd(&mut self) -> (r: ExecResult<String>)
        ensures
            r matches Ok(c) && c@ == old(self).cwd_view(),
            *final(self) == *old(self),
    {
        Ok(self.cwd.clone())
    }
}

} // verus!
