//! The evaluator: walks commands, keeps the scope of `with` blocks, and
//! dispatches operations to a backend.
use vstd::prelude::*;
use crate::ast::{
    IdemParamType, IdemPath, IdemPathLocalPartType, IdemRawCommandType, IdemRawCommandWithPaths,
    IdemResourceType, IdemValueType,
};
use crate::errors::{Error, ErrorType, ExecResult};
use crate::lexer::str_eq;
use crate::traits::{BackendCall, Exec, Request};

verus! {

/// The kind of an error, without its payload.
#[derive(PartialEq, Eq)]
pub enum ErrorKind {
    Parse,
    Unsupported,
    Validation,
    Backend,
}

pub open spec fn kind_of(e: ErrorType) -> ErrorKind {
    match e {
        ErrorType::Parse(_) => ErrorKind::Parse,
        ErrorType::Unsupported(_) => ErrorKind::Unsupported,
        ErrorType::Validation(_) => ErrorKind::Validation,
        ErrorType::Backend(_) => ErrorKind::Backend,
    }
}

/// Where a path written inside a scope with base path `base` is handed to
/// the backend. The initial base `./` leaves paths as written.
pub open spec fn resolve(base: Seq<char>, p: Seq<char>) -> Seq<char> {
    if base == "./"@ {
        p
    } else {
        base + "/"@ + p
    }
}

/// The flag keyword when it is the one and only parameter.
pub open spec fn single_flag(params: Seq<IdemParamType>) -> Option<Seq<char>> {
    if params.len() == 1 {
        match params[0] {
            IdemParamType::FlagKeyword(s) => Some(s@),
            _ => None,
        }
    } else {
        None
    }
}

/// The operation that ensures that path `p` exists.
pub open spec fn path_call(base: Seq<char>, p: IdemPath) -> BackendCall {
    match p.1 {
        IdemPathLocalPartType::Directory(d) => BackendCall::EnsureDirectory(resolve(base, d@)),
        IdemPathLocalPartType::File(f) => BackendCall::EnsureFile(resolve(base, f@)),
    }
}

/// The base path inside a `with` block on `res`, if the evaluator supports it.
pub open spec fn block_base(base: Seq<char>, res: IdemResourceType) -> Option<Seq<char>> {
    match res {
        IdemResourceType::Directory(d) => Some(resolve(base, d@)),
        IdemResourceType::File(f) => Some(resolve(base, f@)),
        IdemResourceType::Host(_) => None,
    }
}

/// The operations that command `c` hands to the backend in the scope with
/// base path `base`, in order, when each of them succeeds; and the error
/// that stops the evaluation, if one does.
///
/// Only the flag `exists` has an execution: it ensures every listed path.
/// A quoted literal is a collection of one element; listing a directory
/// needs an operation that the backend interface does not have, so `each`
/// over a path is unsupported, as is a `with` block on a host.
pub open spec fn plan_cmd(c: IdemRawCommandType, base: Seq<char>) -> (
    Seq<BackendCall>,
    Option<ErrorKind>,
)
    decreases c, 0int,
{
    match c {
        IdemRawCommandType::WithPaths(w) => match single_flag(w.params@) {
            Some(f) => if f == "exists"@ {
                (w.paths@.map_values(|p: IdemPath| path_call(base, p)), None)
            } else {
                (seq![], Some(ErrorKind::Unsupported))
            },
            None => (seq![], Some(ErrorKind::Unsupported)),
        },
        IdemRawCommandType::Each(_, coll, body) => match coll {
            IdemValueType::LitString(_) => plan_cmds(body@, 0, base),
            _ => (seq![], Some(ErrorKind::Unsupported)),
        },
        IdemRawCommandType::WithBlock(res, _, body) => match block_base(base, res) {
            Some(b) => plan_cmds(body@, 0, b),
            None => (seq![], Some(ErrorKind::Unsupported)),
        },
    }
}

/// The plan of the commands of `cs` from index `k` on, run in order and
/// stopped by the first error.
pub open spec fn plan_cmds(cs: Seq<Box<IdemRawCommandType>>, k: int, base: Seq<char>) -> (
    Seq<BackendCall>,
    Option<ErrorKind>,
)
    decreases cs, cs.len() - k,
{
    if 0 <= k < cs.len() {
        let p1 = plan_cmd(*cs[k], base);
        if p1.1 is Some {
            p1
        } else {
            let p2 = plan_cmds(cs, k + 1, base);
            (p1.0 + p2.0, p2.1)
        }
    } else {
        (seq![], None)
    }
}

/// The plan of a script's commands from index `k` on, run in order and
/// stopped by the first error.
pub open spec fn plan_script(cs: Seq<IdemRawCommandType>, k: int, base: Seq<char>) -> (
    Seq<BackendCall>,
    Option<ErrorKind>,
)
    decreases cs.len() - k,
{
    if 0 <= k < cs.len() {
        let p1 = plan_cmd(cs[k], base);
        if p1.1 is Some {
            p1
        } else {
            let p2 = plan_script(cs, k + 1, base);
            (p1.0 + p2.0, p2.1)
        }
    } else {
        (seq![], None)
    }
}

/// The operations of a record, without their answers.
pub open spec fn calls_of(reqs: Seq<Request>) -> Seq<BackendCall> {
    reqs.map_values(|x: Request| x.0)
}

/// `issued` (each operation with the backend's answer) is what a run
/// following `plan` asks of the backend when it returns `r`: the plan's
/// operations in order, stopping after the first that fails, whose error is
/// then the result; an error of the plan itself comes only once all its
/// operations succeeded.
pub open spec fn ran(
    issued: Seq<Request>,
    plan: (Seq<BackendCall>, Option<ErrorKind>),
    r: ExecResult<()>,
) -> bool {
    &&& issued.len() <= plan.0.len()
    &&& calls_of(issued) == plan.0.subrange(0, issued.len() as int)
    &&& forall|k: int| 0 <= k < issued.len() - 1 ==> (#[trigger] issued[k]).1 is Ok
    &&& match r {
        Ok(_) => {
            &&& plan.1 is None
            &&& issued.len() == plan.0.len()
            &&& (issued.len() > 0 ==> issued.last().1 is Ok)
        },
        Err(e) => {
            ||| (issued.len() > 0 && issued.last().1 == r)
            ||| {
                &&& issued.len() == plan.0.len()
                &&& (issued.len() > 0 ==> issued.last().1 is Ok)
                &&& plan.1 == Some(kind_of(e.repr))
            }
        },
    }
}

proof fn lemma_ran_nothing(
    reqs: Seq<Request>,
    plan: (Seq<BackendCall>, Option<ErrorKind>),
    r: ExecResult<()>,
)
    requires
        plan.0.len() == 0,
        match r {
            Ok(_) => plan.1 is None,
            Err(e) => plan.1 == Some(kind_of(e.repr)),
        },
    ensures
        ran(reqs.skip(reqs.len() as int), plan, r),
{
    let i = reqs.skip(reqs.len() as int);
    assert(i =~= Seq::<Request>::empty());
    assert(calls_of(i) =~= plan.0.subrange(0, 0));
}

proof fn lemma_ran_then(
    i1: Seq<Request>,
    p1: (Seq<BackendCall>, Option<ErrorKind>),
    i2: Seq<Request>,
    p2: (Seq<BackendCall>, Option<ErrorKind>),
    r2: ExecResult<()>,
)
    requires
        ran(i1, p1, Ok(())),
        ran(i2, p2, r2),
    ensures
        ran(i1 + i2, (p1.0 + p2.0, p2.1), r2),
{
    let i = i1 + i2;
    assert(calls_of(i) =~= calls_of(i1) + calls_of(i2));
    assert(calls_of(i) =~= (p1.0 + p2.0).subrange(0, i.len() as int));
    assert forall|k: int| 0 <= k < i.len() - 1 implies (#[trigger] i[k]).1 is Ok by {
        if k < i1.len() {
            assert(i[k] == i1[k]);
            if k == i1.len() - 1 {
                assert(i1[k] == i1.last());
            }
        } else {
            assert(i[k] == i2[k - i1.len()]);
        }
    }
    if i2.len() == 0 {
        assert(i =~= i1);
    } else {
        assert(i.last() == i2.last());
    }
}

proof fn lemma_ran_failed_early(
    i1: Seq<Request>,
    p1: (Seq<BackendCall>, Option<ErrorKind>),
    more: (Seq<BackendCall>, Option<ErrorKind>),
    r: ExecResult<()>,
)
    requires
        ran(i1, p1, r),
        r is Err,
        p1.1 is None,
    ensures
        ran(i1, (p1.0 + more.0, more.1), r),
{
    assert(calls_of(i1) =~= (p1.0 + more.0).subrange(0, i1.len() as int));
}

/// Evaluates commands against a backend, keeping the scope of `with` blocks.
pub struct HandleExec<E: Exec> {
    driver: E,
    cwd: String,
    aliases: Vec<(String, String)>,
    bindings: Vec<(String, String)>,
}

/// The single path of a command over paths, if it has exactly one.
pub fn find_single_path(obj: &IdemRawCommandWithPaths) -> (r: Option<&IdemPath>)
    ensures
        obj.paths@.len() == 1 ==> r == Some(&obj.paths@[0]),
        obj.paths@.len() != 1 ==> r is None,
{
    if obj.paths.len() != 1 {
        return None;
    }
    Some(&obj.paths[0])
}

/// The flag keyword when it is the one and only parameter.
pub fn find_single_flag_keyword(params: &[IdemParamType]) -> (r: Option<&str>)
    ensures
        match single_flag(params@) {
            Some(f) => r matches Some(x) && x@ == f,
            None => r is None,
        },
{
    if params.len() != 1 {
        return None;
    }
    match &params[0] {
        IdemParamType::FlagKeyword(s) => Some(s.as_str()),
        _ => None,
    }
}

fn resolve_path(base: &String, p: &String) -> (r: String)
    ensures
        r@ == resolve(base@, p@),
{
    if str_eq(base.as_str(), "./") {
        p.clone()
    } else {
        let mut r = base.clone();
        r.append("/");
        r.append(p.as_str());
        r
    }
}

impl<E: Exec> HandleExec<E> {
    /// The current base path.
    pub closed spec fn base(&self) -> Seq<char> {
        self.cwd@
    }

    /// The aliases in scope, innermost last: each name with the base path of
    /// its block.
    pub closed spec fn alias_stack(&self) -> Seq<(String, String)> {
        self.aliases@
    }

    /// The loop variables in scope, innermost last.
    pub closed spec fn binding_stack(&self) -> Seq<(String, String)> {
        self.bindings@
    }

    /// Every operation the backend was asked for so far, with its answers.
    pub open spec fn requests(&self) -> Seq<Request> {
        self.backend().requests()
    }

    pub closed spec fn backend(&self) -> E {
        self.driver
    }

    pub fn new(driver: E) -> (h: Self)
        ensures
            h.base() == "./"@,
            h.alias_stack().len() == 0,
            h.binding_stack().len() == 0,
            h.backend() == driver,
    {
        HandleExec {
            driver,
            cwd: String::from_str("./"),
            aliases: Vec::new(),
            bindings: Vec::new(),
        }
    }

    pub fn base_path(&self) -> (r: &String)
        ensures
            r@ == self.base(),
    {
        &self.cwd
    }

    /// The names of the aliases in scope, innermost last.
    pub fn alias_names(&self) -> (r: Vec<String>)
        ensures
            r@.len() == self.alias_stack().len(),
            forall|k: int| 0 <= k < r@.len() ==> #[trigger] r@[k] == self.alias_stack()[k].0,
    {
        let mut r: Vec<String> = Vec::new();
        let mut k: usize = 0;
        while k < self.aliases.len()
            invariant
                k <= self.aliases@.len(),
                r@.len() == k,
                forall|j: int| 0 <= j < k ==> #[trigger] r@[j] == self.aliases@[j].0,
            decreases self.aliases@.len() - k,
        {
            r.push(self.aliases[k].0.clone());
            k = k + 1;
        }
        r
    }

    pub fn driver(&self) -> (r: &E)
        ensures
            *r == self.backend(),
    {
        &self.driver
    }

    pub fn into_driver(self) -> (r: E)
        ensures
            r == self.backend(),
    {
        self.driver
    }

    /// Evaluates one command. The base path, the aliases and the loop
    /// variables in scope afterwards are those from before, whether it
    /// succeeded or failed. The backend gets the command's plan in order,
    /// up to the first operation that fails; the result is that failure,
    /// the plan's own error, or success. A failure of the
    /// backend is returned exactly as the backend gave it.
    pub fn execute_raw_script_command(&mut self, cmd: &IdemRawCommandType) -> (r: ExecResult<()>)
        ensures
            final(self).base() == old(self).base(),
            final(self).alias_stack() == old(self).alias_stack(),
            final(self).binding_stack() == old(self).binding_stack(),
            old(self).backend().inv() ==> final(self).backend().inv(),
            old(self).requests().len() <= final(self).requests().len(),
            final(self).requests().subrange(0, old(self).requests().len() as int) == old(self).requests(),
            ran(
                final(self).requests().skip(old(self).requests().len() as int),
                plan_cmd(*cmd, old(self).base()),
                r,
            ),
        decreases cmd, 0int,
    {
        match cmd {
            IdemRawCommandType::WithPaths(obj) => {
                let flag = find_single_flag_keyword(obj.params.as_slice());
                match flag {
                    Some(f) => {
                        if str_eq(f, "exists") {
                            self.ensure_paths(&obj.paths)
                        } else {
                            let e = Error::unsupported(
                                String::from_str("flag keyword has no defined execution"),
                            );
                            proof {
                                lemma_ran_nothing(self.driver.requests(), plan_cmd(*cmd, self.cwd@), Err(e));
                            }
                            Err(e)
                        }
                    },
                    None => {
                        let e = Error::unsupported(
                            String::from_str("a command needs a single flag keyword"),
                        );
                        proof {
                            lemma_ran_nothing(self.driver.requests(), plan_cmd(*cmd, self.cwd@), Err(e));
                        }
                        Err(e)
                    },
                }
            },
            IdemRawCommandType::Each(name, coll, body) => match coll {
                IdemValueType::LitString(x) => {
                    self.bindings.push((name.clone(), x.clone()));
                    let r = self.run_cmds(body, 0);
                    self.bindings.pop();
                    proof {
                        assert(self.bindings@ =~= old(self).bindings@);
                    }
                    r
                },
                _ => {
                    let e = Error::unsupported(
                        String::from_str("iteration needs a listing the backend does not offer"),
                    );
                    proof {
                        lemma_ran_nothing(self.driver.requests(), plan_cmd(*cmd, self.cwd@), Err(e));
                    }
                    Err(e)
                },
            },
            IdemRawCommandType::WithBlock(res, alias, body) => {
                let local = match res {
                    IdemResourceType::Directory(d) => d,
                    IdemResourceType::File(f) => f,
                    IdemResourceType::Host(_) => {
                        let e = Error::unsupported(
                            String::from_str("a host cannot be the subject of a block"),
                        );
                        proof {
                            lemma_ran_nothing(self.driver.requests(), plan_cmd(*cmd, self.cwd@), Err(e));
                        }
                        return Err(e);
                    },
                };
                let saved = self.cwd.clone();
                let inner = resolve_path(&self.cwd, local);
                match alias {
                    Some(a) => self.aliases.push((a.clone(), inner.clone())),
                    None => {},
                }
                self.cwd = inner;
                let r = self.run_cmds(body, 0);
                match alias {
                    Some(_) => {
                        self.aliases.pop();
                    },
                    None => {},
                }
                self.cwd = saved;
                proof {
                    assert(self.aliases@ =~= old(self).aliases@);
                }
                r
            },
        }
    }

    /// Evaluates a parsed script: its commands in source order, stopping at
    /// the first error, which is returned. The scope afterwards is the scope
    /// from before.
    pub fn execute_raw_script(&mut self, script: &Vec<IdemRawCommandType>) -> (r: ExecResult<()>)
        ensures
            final(self).base() == old(self).base(),
            final(self).alias_stack() == old(self).alias_stack(),
            final(self).binding_stack() == old(self).binding_stack(),
            old(self).backend().inv() ==> final(self).backend().inv(),
            old(self).requests().len() <= final(self).requests().len(),
            final(self).requests().subrange(0, old(self).requests().len() as int) == old(self).requests(),
            ran(
                final(self).requests().skip(old(self).requests().len() as int),
                plan_script(script@, 0, old(self).base()),
                r,
            ),
    {
        self.run_script(script, 0)
    }

    fn run_script(&mut self, script: &Vec<IdemRawCommandType>, k: usize) -> (r: ExecResult<()>)
        ensures
            final(self).base() == old(self).base(),
            final(self).alias_stack() == old(self).alias_stack(),
            final(self).binding_stack() == old(self).binding_stack(),
            old(self).backend().inv() ==> final(self).backend().inv(),
            old(self).requests().len() <= final(self).requests().len(),
            final(self).requests().subrange(0, old(self).requests().len() as int) == old(self).requests(),
            ran(
                final(self).requests().skip(old(self).requests().len() as int),
                plan_script(script@, k as int, old(self).base()),
                r,
            ),
        decreases script@.len() - k,
    {
        if k >= script.len() {
            proof {
                lemma_ran_nothing(self.driver.requests(), plan_script(script@, k as int, self.cwd@), Ok(()));
            }
            return Ok(());
        }
        let ghost l0 = self.driver.requests();
        let r1 = self.execute_raw_script_command(&script[k]);
        let ghost l1 = self.driver.requests();
        match r1 {
            Err(e) => {
                proof {
                    let p1 = plan_cmd(script@[k as int], old(self).cwd@);
                    if p1.1 is None {
                        let i1 = l1.skip(l0.len() as int);
                        lemma_ran_failed_early(i1, p1, plan_script(script@, k + 1, old(self).cwd@), Err(e));
                    }
                }
                Err(e)
            },
            Ok(()) => {
                let r2 = self.run_script(script, k + 1);
                proof {
                    let l2 = self.driver.requests();
                    let i1 = l1.skip(l0.len() as int);
                    let i2 = l2.skip(l1.len() as int);
                    assert(l2.skip(l0.len() as int) =~= i1 + i2);
                    assert(l2.subrange(0, l0.len() as int) =~= l1.subrange(0, l0.len() as int));
                    lemma_ran_then(i1, plan_cmd(script@[k as int], old(self).cwd@), i2, plan_script(script@, k + 1, old(self).cwd@), r2);
                }
                r2
            },
        }
    }

    /// Evaluates the commands of `cmds` from index `k` on, in order,
    /// stopping at the first error.
    fn run_cmds(&mut self, cmds: &Vec<Box<IdemRawCommandType>>, k: usize) -> (r: ExecResult<()>)
        ensures
            final(self).base() == old(self).base(),
            final(self).alias_stack() == old(self).alias_stack(),
            final(self).binding_stack() == old(self).binding_stack(),
            old(self).backend().inv() ==> final(self).backend().inv(),
            old(self).requests().len() <= final(self).requests().len(),
            final(self).requests().subrange(0, old(self).requests().len() as int) == old(self).requests(),
            ran(
                final(self).requests().skip(old(self).requests().len() as int),
                plan_cmds(cmds@, k as int, old(self).base()),
                r,
            ),
        decreases cmds@, cmds@.len() - k,
    {
        if k >= cmds.len() {
            proof {
                lemma_ran_nothing(self.driver.requests(), plan_cmds(cmds@, k as int, self.cwd@), Ok(()));
            }
            return Ok(());
        }
        let ghost l0 = self.driver.requests();
        let r1 = self.execute_raw_script_command(&cmds[k]);
        let ghost l1 = self.driver.requests();
        match r1 {
            Err(e) => {
                proof {
                    let p1 = plan_cmd(*cmds@[k as int], old(self).cwd@);
                    if p1.1 is None {
                        let i1 = l1.skip(l0.len() as int);
                        lemma_ran_failed_early(i1, p1, plan_cmds(cmds@, k + 1, old(self).cwd@), Err(e));
                    }
                }
                Err(e)
            },
            Ok(()) => {
                let r2 = self.run_cmds(cmds, k + 1);
                proof {
                    let l2 = self.driver.requests();
                    let i1 = l1.skip(l0.len() as int);
                    let i2 = l2.skip(l1.len() as int);
                    assert(l2.skip(l0.len() as int) =~= i1 + i2);
                    assert(l2.subrange(0, l0.len() as int) =~= l1.subrange(0, l0.len() as int));
                    lemma_ran_then(i1, plan_cmd(*cmds@[k as int], old(self).cwd@), i2, plan_cmds(cmds@, k + 1, old(self).cwd@), r2);
                }
                r2
            },
        }
    }

    /// Ensures that every path of a command exists, in order, stopping at
    /// the first failure.
    fn ensure_paths(&mut self, paths: &Vec<IdemPath>) -> (r: ExecResult<()>)
        ensures
            final(self).base() == old(self).base(),
            final(self).alias_stack() == old(self).alias_stack(),
            final(self).binding_stack() == old(self).binding_stack(),
            old(self).backend().inv() ==> final(self).backend().inv(),
            old(self).requests().len() <= final(self).requests().len(),
            final(self).requests().subrange(0, old(self).requests().len() as int) == old(self).requests(),
            ran(
                final(self).requests().skip(old(self).requests().len() as int),
                (paths@.map_values(|p: IdemPath| path_call(old(self).base(), p)), None),
                r,
            ),
    {
        let ghost start = self.driver.requests();
        let ghost plan = paths@.map_values(|p: IdemPath| path_call(self.cwd@, p));
        let mut k: usize = 0;
        while k < paths.len()
            invariant
                self.cwd == old(self).cwd,
                self.aliases == old(self).aliases,
                self.bindings == old(self).bindings,
                start == old(self).driver.requests(),
                plan == paths@.map_values(|p: IdemPath| path_call(self.cwd@, p)),
                k <= paths@.len(),
                self.driver.requests().len() == start.len() + k,
                self.driver.requests().subrange(0, start.len() as int) == start,
                calls_of(self.driver.requests().skip(start.len() as int)) == plan.subrange(0, k as int),
                forall|j: int|
                    0 <= j < k ==> (#[trigger] self.driver.requests().skip(start.len() as int)[j]).1 is Ok,
                old(self).driver.inv() ==> self.driver.inv(),
            decreases paths@.len() - k,
        {
            let ghost call = path_call(self.cwd@, paths@[k as int]);
            let ghost before = self.driver.requests();
            let res = match &paths[k].1 {
                IdemPathLocalPartType::Directory(d) => {
                    let full = resolve_path(&self.cwd, d);
                    self.driver.ensure_directory(full.as_str())
                },
                IdemPathLocalPartType::File(f) => {
                    let full = resolve_path(&self.cwd, f);
                    self.driver.ensure_file_exists(full.as_str())
                },
            };
            proof {
                let prev = before;
                assert(self.driver.requests() =~= prev.push((call, res)));
                assert(self.driver.requests().skip(start.len() as int) =~= prev.skip(
                    start.len() as int,
                ).push((call, res)));
                assert(self.driver.requests().subrange(0, start.len() as int) =~= prev.subrange(0, start.len() as int));
                assert(call == plan[k as int]);
                assert(calls_of(self.driver.requests().skip(start.len() as int)) =~= plan.subrange(0, k + 1));
            }
            if res.is_err() {
                return res;
            }
            k = k + 1;
        }
        proof {
            assert(plan.subrange(0, k as int) =~= plan);
        }
        Ok(())
    }
}

} // verus!
