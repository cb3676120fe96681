//! Tasks and the store operations over them: open, save, remove, the
//! directory scan, inheritance-aware resolution, and atomic batches.
use crate::codec::{
    decode_value_bytes, encode_key, encode_value_bytes, lemma_task_key_injective,
    lemma_value_round_trip, spec_decode_value, spec_encode_value, task_key,
};
use crate::path::{
    abs_path, base_name, dir_slash, dir_slash_exec, join, join_under, last_sep, normalize,
    parent_dir, spec_normalize,
};
use crate::store::{apply_ops, has_prefix, lemma_lex_common_prefix, lex_lt, ops_view, BatchOp, Kv};
use vstd::prelude::*;

verus! {

/// Why a task operation failed.
#[derive(Debug)]
pub enum TaskError {
    /// The path was malformed, or popped past the root.
    InvalidPath,
    /// No task at the resolved key; carries the requested name.
    NotFound(String),
    /// A value was present but not decodable: corruption, not absence.
    BrokenData,
    /// The underlying store reported a failure; carries its message.
    StorageOperationFailed(String),
}

/// The abstract content of a task.
pub struct TaskView {
    pub name: Seq<char>,
    pub path: Seq<char>,
    pub inherit: bool,
    pub extension: Seq<char>,
    pub content: Seq<u8>,
}

/// A named script artifact scoped to a directory.
pub struct Task {
    name: String,
    path: String,
    inherit: bool,
    extension: String,
    content: Vec<u8>,
}

impl View for Task {
    type V = TaskView;

    closed spec fn view(&self) -> TaskView {
        TaskView {
            name: self.name@,
            path: self.path@,
            inherit: self.inherit,
            extension: self.extension@,
            content: self.content@,
        }
    }
}

/// A task's path is absolute and its name is the final component.
pub open spec fn task_wf(t: TaskView) -> bool {
    abs_path(t.path) && t.name == t.path.subrange(last_sep(t.path) + 1, t.path.len() as int)
}

impl Task {
    /// The task's structural invariant.
    pub open spec fn wf(&self) -> bool {
        task_wf(self@)
    }

    /// A fresh task named `name` in the directory `dir`, with default
    /// settings and empty content.
    pub fn current(dir: &str, name: &str) -> (r: Task)
        requires
            abs_path(dir@),
            !name@.contains('/'),
        ensures
            r@.path == join(dir@, name@),
            r@.name == name@,
            r@.inherit == false,
            r@.extension == Seq::<char>::empty(),
            r@.content == Seq::<u8>::empty(),
            r.wf(),
    {
        proof {
            crate::path::lemma_join_name(dir@, name@);
        }
        let path = join_under(dir.to_owned(), name);
        Task {
            name: name.to_owned(),
            path,
            inherit: false,
            extension: String::new(),
            content: Vec::new(),
        }
    }

    /// The final path segment.
    pub fn name(&self) -> (r: &str)
        ensures
            r@ == self@.name,
    {
        self.name.as_str()
    }

    /// The canonical absolute path.
    pub fn path(&self) -> (r: &str)
        ensures
            r@ == self@.path,
    {
        self.path.as_str()
    }

    /// Whether resolution may pick the task up from a deeper directory.
    pub fn inherit(&self) -> (r: bool)
        ensures
            r == self@.inherit,
    {
        self.inherit
    }

    /// Set the inherit flag.
    pub fn set_inherit(&mut self, inherit: bool)
        ensures
            final(self)@ == (TaskView { inherit, ..old(self)@ }),
    {
        self.inherit = inherit;
    }

    /// The script body.
    pub fn content(&self) -> (r: &Vec<u8>)
        ensures
            r@ == self@.content,
    {
        &self.content
    }

    /// Take the script body out, consuming the task.
    pub fn take(self) -> (r: Vec<u8>)
        ensures
            r@ == self@.content,
    {
        self.content
    }

    /// Replace the script body.
    pub fn set_content(&mut self, content: Vec<u8>)
        ensures
            final(self)@ == (TaskView { content: content@, ..old(self)@ }),
    {
        self.content = content;
    }

    /// Set the extension tag.
    pub fn set_extension(&mut self, ext: &str)
        ensures
            final(self)@ == (TaskView { extension: ext@, ..old(self)@ }),
    {
        self.extension = ext.to_owned();
    }

    /// The extension tag; empty means a default is used.
    pub fn extension(&self) -> (r: &str)
        ensures
            r@ == self@.extension,
    {
        self.extension.as_str()
    }

    /// Take over the stored fields (inherit, extension, content) of
    /// `task`, keeping the receiver's own name and path.
    pub fn copy_from(&mut self, task: &Task)
        ensures
            final(self)@ == (TaskView {
                inherit: task@.inherit,
                extension: task@.extension,
                content: task@.content,
                ..old(self)@
            }),
    {
        self.inherit = task.inherit;
        self.extension = task.extension.clone();
        let mut c: Vec<u8> = Vec::new();
        c.extend_from_slice(task.content.as_slice());
        proof {
            assert(c@ =~= task.content@);
        }
        self.content = c;
    }
}

/// Whether `s` holds a separator at or after `from`.
fn contains_sep_from(s: &str, from: usize) -> (r: bool)
    requires
        from <= s@.len(),
    ensures
        r == s@.subrange(from as int, s@.len() as int).contains('/'),
{
    let n = s.unicode_len();
    let ghost tail = s@.subrange(from as int, n as int);
    let mut i = from;
    while i < n
        invariant
            from <= i <= n,
            n == s@.len(),
            tail == s@.subrange(from as int, n as int),
            forall|j: int| from <= j < i ==> s@[j] != '/',
        decreases n - i,
    {
        if s.get_char(i) == '/' {
            proof {
                assert(tail[i - from] == '/');
            }
            return true;
        }
        i = i + 1;
    }
    proof {
        if tail.contains('/') {
            let w = choose|w: int| 0 <= w < tail.len() && tail[w] == '/';
            assert(s@[w + from] == '/');
        }
    }
    false
}

/// What the store holds at the key for a canonical path.
pub enum Lookup {
    /// No entry.
    Missing,
    /// An entry that does not decode.
    Broken,
    /// A decodable entry, with its fields.
    Found { inherit: bool, extension: Seq<char>, content: Seq<u8> },
}

/// Decode the store's entry for `path`.
pub open spec fn spec_lookup(db: Map<Seq<char>, Seq<u8>>, path: Seq<char>) -> Lookup {
    let k = task_key(path);
    if !db.contains_key(k) {
        Lookup::Missing
    } else {
        match spec_decode_value(db[k]) {
            Some(v) => Lookup::Found { inherit: v.0, extension: v.1, content: v.2 },
            None => Lookup::Broken,
        }
    }
}

/// A stored key that a scan from prefix `pref` yields: it carries the
/// prefix, lies in a direct child position when only the current directory
/// is wanted, and decodes.
pub open spec fn scan_selects(
    db: Map<Seq<char>, Seq<u8>>,
    pref: Seq<char>,
    current_only: bool,
    k: Seq<char>,
) -> bool {
    &&& db.contains_key(k)
    &&& has_prefix(k, pref)
    &&& (current_only ==> !k.subrange(pref.len() as int, k.len() as int).contains('/'))
    &&& spec_decode_value(db[k]) is Some
}

/// The task a scan yields for a selected key.
pub open spec fn scan_hit(
    db: Map<Seq<char>, Seq<u8>>,
    pref: Seq<char>,
    current_only: bool,
    t: TaskView,
) -> bool {
    let k = task_key(t.path);
    &&& scan_selects(db, pref, current_only, k)
    &&& spec_decode_value(db[k]) == Some((t.inherit, t.extension, t.content))
}

/// The chain of directories resolution walks: the start, then each parent
/// up to the root.
pub open spec fn dir_chain(dir: Seq<char>) -> Seq<Seq<char>>
    decreases dir.len(),
    via dir_chain_decreases
{
    if dir.len() <= 1 {
        seq![dir]
    } else {
        seq![dir] + dir_chain(parent_dir(dir))
    }
}

#[via_fn]
proof fn dir_chain_decreases(dir: Seq<char>) {
    if dir.len() >= 2 {
        crate::path::lemma_parent_dir_shorter(dir);
    }
}

/// The outcome resolution is specified to produce.
pub enum Resolution {
    /// The nearest eligible task, with its path and fields.
    RFound { path: Seq<char>, inherit: bool, extension: Seq<char>, content: Seq<u8> },
    /// No eligible task anywhere up the chain.
    RNotFound,
    /// A broken entry stopped the walk.
    RBroken,
}

/// Walk the directory chain for `name`: the first directory's task always
/// counts; a farther one only with its inherit flag; a broken entry aborts;
/// absence moves one level up.
pub open spec fn spec_resolve_from(
    db: Map<Seq<char>, Seq<u8>>,
    dirs: Seq<Seq<char>>,
    name: Seq<char>,
    first: bool,
) -> Resolution
    decreases dirs.len(),
{
    if dirs.len() == 0 {
        Resolution::RNotFound
    } else {
        match spec_lookup(db, join(dirs[0], name)) {
            Lookup::Broken => Resolution::RBroken,
            Lookup::Found { inherit, extension, content } => if first || inherit {
                Resolution::RFound { path: join(dirs[0], name), inherit, extension, content }
            } else {
                spec_resolve_from(db, dirs.drop_first(), name, false)
            },
            Lookup::Missing => spec_resolve_from(db, dirs.drop_first(), name, false),
        }
    }
}

/// Resolution of `name` from the directory `dir` upward.
pub open spec fn spec_resolve(
    db: Map<Seq<char>, Seq<u8>>,
    dir: Seq<char>,
    name: Seq<char>,
) -> Resolution {
    spec_resolve_from(db, dir_chain(dir), name, true)
}

/// The key of `name` as a direct child of `dir`.
pub open spec fn child_key(dir: Seq<char>, name: Seq<char>) -> Seq<char> {
    task_key(dir_slash(dir) + name)
}

/// Whether level `l` of the chain offers `name`: a decodable direct child
/// that is eligible (the starting directory always, an ancestor only with
/// its inherit flag set).
pub open spec fn offered_at(
    db: Map<Seq<char>, Seq<u8>>,
    dirs: Seq<Seq<char>>,
    l: int,
    name: Seq<char>,
) -> bool {
    &&& name.len() > 0
    &&& !name.contains('/')
    &&& db.contains_key(child_key(dirs[l], name))
    &&& match spec_decode_value(db[child_key(dirs[l], name)]) {
        Some(v) => l == 0 || v.0,
        None => false,
    }
}

/// The level whose copy of `name` is shown: the nearest offering one.
pub open spec fn first_offer(
    db: Map<Seq<char>, Seq<u8>>,
    dirs: Seq<Seq<char>>,
    l: int,
    name: Seq<char>,
) -> bool {
    &&& 0 <= l < dirs.len()
    &&& offered_at(db, dirs, l, name)
    &&& forall|m: int| 0 <= m < l ==> !(#[trigger] offered_at(db, dirs, m, name))
}

/// A task the enumeration shows: the record of its name's nearest offering
/// level.
pub open spec fn visible_hit(
    db: Map<Seq<char>, Seq<u8>>,
    dirs: Seq<Seq<char>>,
    t: TaskView,
) -> bool {
    exists|l: int|
        #[trigger] first_offer(db, dirs, l, t.name) && t.path == dir_slash(dirs[l]) + t.name
            && spec_decode_value(db[child_key(dirs[l], t.name)]) == Some(
            (t.inherit, t.extension, t.content),
        )
}

/// A name's first-offering level is unique.
pub proof fn lemma_first_offer_unique(
    db: Map<Seq<char>, Seq<u8>>,
    dirs: Seq<Seq<char>>,
    l1: int,
    l2: int,
    n: Seq<char>,
)
    requires
        first_offer(db, dirs, l1, n),
        first_offer(db, dirs, l2, n),
    ensures
        l1 == l2,
{
    if l1 < l2 {
        assert(offered_at(db, dirs, l1, n));
    }
    if l2 < l1 {
        assert(offered_at(db, dirs, l2, n));
    }
}

/// Whether a name list holds `n`.
pub open spec fn name_in(seen: Seq<String>, n: Seq<char>) -> bool {
    exists|m: int| 0 <= m < seen.len() && #[trigger] seen[m]@ == n
}

/// Whether a task list holds a task named `n`.
pub open spec fn out_has(out: Seq<Task>, n: Seq<char>) -> bool {
    exists|i: int| 0 <= i < out.len() && #[trigger] out[i]@.name == n
}

/// A prefixed key whose remainder has no separator names a direct child:
/// the remainder is the stored path's final component.
proof fn lemma_child_name(ds: Seq<char>, p: Seq<char>)
    requires
        ds.len() > 0,
        ds.last() == '/',
        has_prefix(p, ds),
        !p.subrange(ds.len() as int, p.len() as int).contains('/'),
    ensures
        p == ds + p.subrange(ds.len() as int, p.len() as int),
        p.subrange(last_sep(p) + 1, p.len() as int) == p.subrange(
            ds.len() as int,
            p.len() as int,
        ),
{
    let rem = p.subrange(ds.len() as int, p.len() as int);
    assert(p.subrange(0, ds.len() as int) == ds);
    assert(p[ds.len() - 1] == ds.last()) by {
        assert(p.subrange(0, ds.len() as int)[ds.len() - 1] == p[ds.len() - 1]);
    }
    assert forall|i: int| ds.len() - 1 < i < p.len() implies p[i] != '/' by {
        if rem.contains('/') {
        }
        assert(rem[i - ds.len()] == p[i]);
        if p[i] == '/' {
            assert(rem.contains('/')) by {
                assert(rem[i - ds.len()] == '/');
            }
        }
    }
    crate::path::lemma_last_sep_is(p, ds.len() - 1);
    assert(p =~= ds + rem);
}

/// A current-only scan entry under `ds` is the record of its own name as
/// a direct child.
proof fn lemma_scan_child(ds: Seq<char>, pref: Seq<char>, t: TaskView)
    requires
        ds.len() > 0,
        ds.last() == '/',
        pref == task_key(ds),
        has_prefix(task_key(t.path), pref),
        !task_key(t.path).subrange(
            pref.len() as int,
            task_key(t.path).len() as int,
        ).contains('/'),
        task_wf(t),
    ensures
        t.path == ds + t.name,
        !t.name.contains('/'),
{
    let k = task_key(t.path);
    assert(k.subrange(0, pref.len() as int) == pref);
    assert(has_prefix(t.path, ds)) by {
        assert(t.path.subrange(0, ds.len() as int) =~= ds) by {
            assert(forall|x: int|
                0 <= x < pref.len() ==> k.subrange(0, pref.len() as int)[x] == k[x]);
            assert(forall|x: int| 0 <= x < ds.len() ==> t.path[x] == k[5 + x]);
            assert(forall|x: int| 0 <= x < ds.len() ==> ds[x] == pref[5 + x]);
        }
    }
    let rem = t.path.subrange(ds.len() as int, t.path.len() as int);
    assert(!rem.contains('/')) by {
        let krem = k.subrange(pref.len() as int, k.len() as int);
        assert(krem =~= rem);
        if rem.contains('/') {
            let w = choose|w: int| 0 <= w < rem.len() && rem[w] == '/';
            assert(krem[w] == '/');
        }
    }
    lemma_child_name(ds, t.path);
    assert(t.name == rem);
    assert(t.path == ds + t.name);
}

/// A fresh copy of a task.
fn dup_task(t: &Task) -> (r: Task)
    ensures
        r@ == t@,
{
    let mut content: Vec<u8> = Vec::new();
    content.extend_from_slice(t.content.as_slice());
    proof {
        assert(content@ =~= t.content@);
    }
    Task {
        name: t.name.clone(),
        path: t.path.clone(),
        inherit: t.inherit,
        extension: t.extension.clone(),
        content,
    }
}

/// Whether `seen` holds `name`.
fn name_seen(seen: &Vec<String>, name: &str) -> (r: bool)
    ensures
        r == name_in(seen@, name@),
{
    let n = seen.len();
    let mut i: usize = 0;
    while i < n
        invariant
            i <= n,
            n == seen@.len(),
            forall|m: int| 0 <= m < i ==> #[trigger] seen@[m]@ != name@,
        decreases n - i,
    {
        if crate::store::str_eq(seen[i].as_str(), name) {
            return true;
        }
        i = i + 1;
    }
    proof {
        if name_in(seen@, name@) {
            let w = choose|w: int| 0 <= w < seen@.len() && #[trigger] seen@[w]@ == name@;
            assert(seen@[w]@ != name@);
        }
    }
    false
}

/// The task store: every operation canonicalizes its path, derives the
/// storage key and goes to the ordered store.
pub struct TaskSystem {
    db: Kv,
}

impl View for TaskSystem {
    type V = Map<Seq<char>, Seq<u8>>;

    closed spec fn view(&self) -> Map<Seq<char>, Seq<u8>> {
        self.db@
    }
}

impl TaskSystem {
    /// The store's structural invariant.
    pub closed spec fn wf(&self) -> bool {
        self.db.wf()
    }

    /// A task system over the given store.
    pub fn new(db: Kv) -> (r: TaskSystem)
        requires
            db.wf(),
        ensures
            r.wf(),
            r@ == db@,
    {
        TaskSystem { db }
    }

    /// Whether a task exists at `path`; absence is an answer, not an error.
    pub fn exists_task(&self, base: &str, path: &str) -> (r: Result<bool, TaskError>)
        requires
            self.wf(),
            abs_path(base@),
        ensures
            ({
                let norm = spec_normalize(base@, path@);
                match r {
                    Ok(b) => norm matches Some(q) && b == (spec_lookup(self@, q) is Found),
                    Err(e) => match e {
                        TaskError::InvalidPath => norm is None,
                        TaskError::BrokenData => norm matches Some(q) && spec_lookup(self@, q)
                            is Broken,
                        _ => false,
                    },
                }
            }),
    {
        match self.open(base, path) {
            Ok(_) => Ok(true),
            Err(e) => match e {
                TaskError::NotFound(_) => Ok(false),
                _ => Err(e),
            },
        }
    }

    /// Fetch and decode the task at `path`, resolved against `base`.
    pub fn open(&self, base: &str, path: &str) -> (r: Result<Task, TaskError>)
        requires
            self.wf(),
            abs_path(base@),
        ensures
            ({
                let norm = spec_normalize(base@, path@);
                match r {
                    Ok(t) => {
                        &&& norm == Some(t@.path)
                        &&& spec_lookup(self@, t@.path) == (Lookup::Found {
                            inherit: t@.inherit,
                            extension: t@.extension,
                            content: t@.content,
                        })
                        &&& t.wf()
                    },
                    Err(e) => match e {
                        TaskError::InvalidPath => norm is None,
                        TaskError::NotFound(n) => norm matches Some(q) && spec_lookup(self@, q)
                            is Missing && n@ == path@,
                        TaskError::BrokenData => norm matches Some(q) && spec_lookup(self@, q)
                            is Broken,
                        _ => false,
                    },
                }
            }),
    {
        let q = match normalize(base, path) {
            Some(q) => q,
            None => {
                return Err(TaskError::InvalidPath);
            },
        };
        proof {
            crate::path::lemma_norm_rel_abs(base@, path@);
        }
        let key = encode_key(q.as_str());
        match self.db.get(key.as_str()) {
            None => Err(TaskError::NotFound(path.to_owned())),
            Some(v) => match decode_value_bytes(v) {
                None => Err(TaskError::BrokenData),
                Some(rec) => {
                    let (inherit, extension, content) = rec;
                    let name = base_name(q.as_str());
                    Ok(Task { name, path: q, inherit, extension, content })
                },
            },
        }
    }

    /// Write the task's record under its path's key, as one atomic batch.
    pub fn save(&mut self, task: &Task) -> (r: Result<(), TaskError>)
        requires
            old(self).wf(),
        ensures
            final(self).wf(),
            r is Ok,
            final(self)@ == old(self)@.insert(
                task_key(task@.path),
                spec_encode_value(task@.inherit, task@.extension, task@.content),
            ),
    {
        let mut batch = self.batch();
        let r = batch.save(task);
        match r {
            Ok(_) => {},
            Err(e) => {
                return Err(e);
            },
        }
        let ghost opsv = batch@;
        let r2 = batch.commit(self);
        proof {
            let op = (
                task_key(task@.path),
                Some(spec_encode_value(task@.inherit, task@.extension, task@.content)),
            );
            assert(opsv =~= seq![op]);
            assert(opsv.drop_last() =~= Seq::<(Seq<char>, Option<Seq<u8>>)>::empty());
            assert(apply_ops(old(self)@, opsv.drop_last()) == old(self)@);
        }
        r2
    }

    /// Delete the entry for `path`, atomically.
    pub fn remove(&mut self, base: &str, path: &str) -> (r: Result<(), TaskError>)
        requires
            old(self).wf(),
        ensures
            final(self).wf(),
            ({
                let norm = spec_normalize(base@, path@);
                match r {
                    Ok(_) => norm matches Some(q) && final(self)@ == old(self)@.remove(
                        task_key(q),
                    ),
                    Err(e) => e is InvalidPath && norm is None && final(self)@ == old(self)@,
                }
            }),
    {
        let mut batch = self.batch();
        let r = batch.remove(base, path);
        match r {
            Ok(_) => {},
            Err(e) => {
                return Err(e);
            },
        }
        let ghost opsv = batch@;
        let r2 = batch.commit(self);
        proof {
            let q = spec_normalize(base@, path@)->Some_0;
            let op = (task_key(q), None::<Seq<u8>>);
            assert(opsv =~= seq![op]);
            assert(opsv.drop_last() =~= Seq::<(Seq<char>, Option<Seq<u8>>)>::empty());
            assert(apply_ops(old(self)@, opsv.drop_last()) == old(self)@);
        }
        r2
    }

    /// Delete the entry for an open task.
    pub fn remove_task(&mut self, task: Task) -> (r: Result<(), TaskError>)
        requires
            old(self).wf(),
        ensures
            final(self).wf(),
            r is Ok,
            final(self)@ == old(self)@.remove(task_key(task@.path)),
    {
        let ghost pathv = task@.path;
        let mut batch = self.batch();
        let r = batch.remove_task(task);
        match r {
            Ok(_) => {},
            Err(e) => {
                return Err(e);
            },
        }
        let ghost opsv = batch@;
        let r2 = batch.commit(self);
        proof {
            let op = (task_key(pathv), None::<Seq<u8>>);
            assert(opsv =~= seq![op]);
            assert(opsv.drop_last() =~= Seq::<(Seq<char>, Option<Seq<u8>>)>::empty());
            assert(apply_ops(old(self)@, opsv.drop_last()) == old(self)@);
        }
        r2
    }

    /// Tasks stored under the directory `path`; with `current_only`, only
    /// its direct children. Entries that do not decode are skipped, not
    /// errors, so one corrupt record cannot break enumeration.
    #[verifier::loop_isolation(false)]
    #[verifier::rlimit(60)]
    pub fn scan(&self, base: &str, path: &str, current_only: bool) -> (r: Result<
        Vec<Task>,
        TaskError,
    >)
        requires
            self.wf(),
            abs_path(base@),
        ensures
            ({
                let norm = spec_normalize(base@, path@);
                match r {
                    Ok(v) => ({
                        let pref = task_key(dir_slash(norm->Some_0));
                        &&& norm is Some
                        &&& forall|i: int|
                            0 <= i < v@.len() ==> scan_hit(
                                self@,
                                pref,
                                current_only,
                                #[trigger] v@[i]@,
                            ) && v@[i].wf()
                        &&& forall|k: Seq<char>|
                            scan_selects(self@, pref, current_only, k) ==> exists|i: int|
                                0 <= i < v@.len() && task_key(#[trigger] v@[i]@.path) == k
                        &&& forall|i: int, j: int|
                            0 <= i < j < v@.len() ==> lex_lt(v@[i]@.path, v@[j]@.path)
                    }),
                    Err(e) => e is InvalidPath && norm is None,
                }
            }),
    {
        let d = match normalize(base, path) {
            Some(d) => d,
            None => {
                return Err(TaskError::InvalidPath);
            },
        };
        proof {
            crate::path::lemma_norm_rel_abs(base@, path@);
        }
        let ds = dir_slash_exec(d.as_str());
        let pref = encode_key(ds.as_str());
        let plen = pref.as_str().unicode_len();
        proof {
            assert(pref@.subrange(0, 5) =~= crate::codec::key_prefix());
            assert(pref@[5] == dir_slash(d@)[0]);
        }
        let entries = self.db.entries_with_prefix(pref.as_str());
        let n = entries.len();
        let mut out: Vec<Task> = Vec::new();
        let ghost mut src: Seq<int> = Seq::empty();
        let ghost sel = |k: Seq<char>| scan_selects(self@, pref@, current_only, k);
        let mut i: usize = 0;
        while i < n
            invariant
                i <= n,
                src.len() == out@.len(),
                forall|m: int| 0 <= m < src.len() ==> 0 <= #[trigger] src[m] < i as int,
                forall|m: int|
                    0 <= m < src.len() ==> task_key(out@[m]@.path) == entries@[
                        #[trigger] src[m]
                    ].0@,
                forall|m: int|
                    0 <= m < out@.len() ==> scan_hit(
                        self@,
                        pref@,
                        current_only,
                        #[trigger] out@[m]@,
                    ) && out@[m].wf(),
                forall|m1: int, m2: int| 0 <= m1 < m2 < src.len() ==> src[m1] < src[m2],
                forall|j: int|
                    0 <= j < i && sel(#[trigger] entries@[j].0@) ==> exists|m: int|
                        0 <= m < src.len() && src[m] == j,
            decreases n - i,
        {
            let key_len = entries[i].0.as_str().unicode_len();
            let ghost k = entries@[i as int].0@;
            let keep = if current_only {
                !contains_sep_from(entries[i].0.as_str(), plen)
            } else {
                true
            };
            if keep {
                match decode_value_bytes(&entries[i].1) {
                    None => {
                        proof {
                            assert(self@[k] == entries@[i as int].1@);
                            assert(!sel(k));
                        }
                    },
                    Some(rec) => {
                        let (inherit, extension, content) = rec;
                        proof {
                            assert(k.subrange(0, plen as int) == pref@);
                            assert(k.subrange(0, 5) =~= k.subrange(0, plen as int).subrange(
                                0,
                                5,
                            ));
                            assert(k.subrange(0, 5) == crate::codec::key_prefix());
                        }
                        let p = entries[i].0.as_str().substring_char(5, key_len).to_owned();
                        proof {
                            assert(task_key(p@) =~= k);
                            assert(p@[0] == k[5]);
                        }
                        let name = base_name(p.as_str());
                        let t = Task { name, path: p, inherit, extension, content };
                        let ghost out0 = out@;
                        out.push(t);
                        proof {
                            let src0 = src;
                            src = src.push(i as int);
                            assert(scan_hit(self@, pref@, current_only, out@[out0.len() as int]@));
                            assert forall|j: int|
                                0 <= j < i + 1 && sel(#[trigger] entries@[j].0@) implies exists|
                                m: int,
                            | 0 <= m < src.len() && src[m] == j by {
                                if j < i {
                                    let m0 = choose|m0: int|
                                        0 <= m0 < src0.len() && src0[m0] == j;
                                    assert(src[m0] == j);
                                } else {
                                    assert(src[src.len() - 1] == j);
                                }
                            }
                        }
                    },
                }
            } else {
                proof {
                    assert(k.subrange(plen as int, k.len() as int).contains('/'));
                    assert(!sel(k));
                }
            }
            i = i + 1;
        }
        proof {
            assert forall|k: Seq<char>|
                scan_selects(self@, pref@, current_only, k) implies exists|m: int|
                0 <= m < out@.len() && task_key(#[trigger] out@[m]@.path) == k by {
                let j = choose|j: int| 0 <= j < entries@.len() && #[trigger] entries@[j].0@ == k;
                assert(sel(entries@[j].0@));
                let m = choose|m: int| 0 <= m < src.len() && src[m] == j;
                assert(task_key(out@[m]@.path) == k);
            }
            assert forall|x: int, y: int| 0 <= x < y < out@.len() implies lex_lt(
                out@[x]@.path,
                out@[y]@.path,
            ) by {
                assert(src[x] < src[y]);
                assert(lex_lt(entries@[src[x]].0@, entries@[src[y]].0@));
                assert(task_key(out@[x]@.path) == entries@[src[x]].0@);
                assert(task_key(out@[y]@.path) == entries@[src[y]].0@);
                lemma_lex_common_prefix(
                    crate::codec::key_prefix(),
                    out@[x]@.path,
                    out@[y]@.path,
                );
            }
        }
        let res: Result<Vec<Task>, TaskError> = Ok(out);
        proof {
            let norm = spec_normalize(base@, path@);
            let v = res->Ok_0;
            let pref = task_key(dir_slash(norm->Some_0));
            assert(res is Ok);
            assert(norm is Some);
            assert(forall|i: int|
                0 <= i < v@.len() ==> scan_hit(self@, pref, current_only, #[trigger] v@[i]@)
                    && v@[i].wf());
            assert(forall|k: Seq<char>|
                scan_selects(self@, pref, current_only, k) ==> exists|i: int|
                    0 <= i < v@.len() && task_key(#[trigger] v@[i]@.path) == k);
            assert(forall|i: int, j: int|
                0 <= i < j < v@.len() ==> lex_lt(v@[i]@.path, v@[j]@.path));
        }
        res
    }

    /// Resolve `name` from `dir` upward: the nearest directory wins; an
    /// ancestor's task is reachable only if it declares `inherit`; a broken
    /// entry aborts the walk; running out of parents is `NotFound`.
    pub fn resolve(&self, dir: &str, name: &str) -> (r: Result<Task, TaskError>)
        requires
            self.wf(),
            abs_path(dir@),
        ensures
            ({
                match r {
                    Ok(t) => spec_resolve(self@, dir@, name@) == (Resolution::RFound {
                        path: t@.path,
                        inherit: t@.inherit,
                        extension: t@.extension,
                        content: t@.content,
                    }) && t.wf(),
                    Err(e) => match e {
                        TaskError::NotFound(n) => spec_resolve(self@, dir@, name@)
                            is RNotFound && n@ == name@,
                        TaskError::BrokenData => spec_resolve(self@, dir@, name@) is RBroken,
                        _ => false,
                    },
                }
            }),
    {
        let mut d: String = dir.to_owned();
        let mut first = true;
        loop
            invariant
                self.wf(),
                abs_path(d@),
                first ==> d@ == dir@,
                spec_resolve_from(self@, dir_chain(d@), name@, first) == spec_resolve(
                    self@,
                    dir@,
                    name@,
                ),
            decreases d@.len(),
        {
            let candidate = join_under(d.clone(), name);
            proof {
                assert(dir_chain(d@)[0] == d@);
                assert(abs_path(candidate@)) by {
                    if d@.len() == 1 && d@[0] == '/' {
                        assert(candidate@[0] == '/');
                    } else {
                        assert(candidate@[0] == d@[0]);
                    }
                }
            }
            proof {
                reveal_strlit("/");
                assert(abs_path("/"@)) by {
                    assert("/"@ =~= seq!['/']);
                }
            }
            match self.open("/", candidate.as_str()) {
                Ok(t) => {
                    if first || t.inherit() {
                        return Ok(t);
                    }
                    proof {
                        assert(spec_resolve_from(self@, dir_chain(d@), name@, first)
                            == spec_resolve_from(
                            self@,
                            dir_chain(d@).drop_first(),
                            name@,
                            false,
                        ));
                    }
                },
                Err(e) => match e {
                    TaskError::NotFound(_) => {
                        proof {
                            assert(spec_resolve_from(self@, dir_chain(d@), name@, first)
                                == spec_resolve_from(
                                self@,
                                dir_chain(d@).drop_first(),
                                name@,
                                false,
                            ));
                        }
                    },
                    TaskError::BrokenData => {
                        return Err(TaskError::BrokenData);
                    },
                    _ => {
                        proof {
                            assert(false);
                        }
                        return Err(TaskError::BrokenData);
                    },
                },
            }
            // not found at this level: step to the parent, or give up at the
            // root
            if d.as_str().unicode_len() <= 1 {
                proof {
                    assert(dir_chain(d@).drop_first() =~= Seq::<Seq<char>>::empty());
                }
                return Err(TaskError::NotFound(name.to_owned()));
            }
            proof {
                assert(dir_chain(d@).drop_first() =~= dir_chain(parent_dir(d@)));
                crate::path::lemma_parent_dir_shorter(d@);
            }
            d = crate::path::parent_of(&d);
            first = false;
        }
    }

    /// Every task visible from `dir`: the starting directory's direct
    /// children, then each ancestor's inheriting children, with a name
    /// shown only from its nearest directory (the closest copy shadows the
    /// rest).
    #[verifier::loop_isolation(false)]
    #[verifier::rlimit(100)]
    pub fn visible_tasks(&self, dir: &str) -> (r: Vec<Task>)
        requires
            self.wf(),
            abs_path(dir@),
        ensures
            ({
                let dirs = dir_chain(dir@);
                &&& forall|i: int|
                    0 <= i < r@.len() ==> visible_hit(self@, dirs, #[trigger] r@[i]@)
                        && r@[i].wf()
                &&& forall|i: int, j: int| 0 <= i < j < r@.len() ==> r@[i]@.name != r@[j]@.name
                &&& forall|l: int, n: Seq<char>|
                    first_offer(self@, dirs, l, n) ==> out_has(r@, n)
                &&& forall|i: int, j: int, li: int, lj: int|
                    0 <= i < j < r@.len() && #[trigger] first_offer(self@, dirs, li, r@[i]@.name)
                        && #[trigger] first_offer(self@, dirs, lj, r@[j]@.name) ==> li <= lj
            }),
    {
        let ghost dirs = dir_chain(dir@);
        let mut d: String = dir.to_owned();
        let mut first = true;
        let ghost mut lvl: int = 0;
        let mut out: Vec<Task> = Vec::new();
        let mut seen: Vec<String> = Vec::new();
        let ghost mut olvl: Seq<int> = Seq::empty();
        proof {
            assert(dirs.subrange(0, dirs.len() as int) =~= dirs);
        }
        loop
            invariant
                0 <= lvl < dirs.len(),
                dirs[lvl] == d@,
                abs_path(d@),
                dir_chain(d@) == dirs.subrange(lvl, dirs.len() as int),
                first <==> lvl == 0,
                forall|l2: int, n: Seq<char>|
                    0 <= l2 < lvl && #[trigger] offered_at(self@, dirs, l2, n) ==> name_in(
                        seen@,
                        n,
                    ),
                forall|i: int|
                    0 <= i < out@.len() ==> visible_hit(self@, dirs, #[trigger] out@[i]@)
                        && out@[i].wf(),
                seen@.len() == out@.len(),
                forall|m: int| 0 <= m < seen@.len() ==> #[trigger] seen@[m]@ == out@[m]@.name,
                forall|i: int, j: int| 0 <= i < j < out@.len() ==> out@[i]@.name != out@[j]@.name,
                forall|l2: int, n: Seq<char>|
                    0 <= l2 < lvl && #[trigger] first_offer(self@, dirs, l2, n) ==> out_has(
                        out@,
                        n,
                    ),
                olvl.len() == out@.len(),
                forall|m: int|
                    0 <= m < olvl.len() ==> #[trigger] olvl[m] <= lvl && first_offer(
                        self@,
                        dirs,
                        olvl[m],
                        out@[m]@.name,
                    ),
                forall|m1: int, m2: int| 0 <= m1 < m2 < olvl.len() ==> olvl[m1] <= olvl[m2],
            decreases d@.len(),
        {
            proof {
                reveal_strlit("/");
                assert(abs_path("/"@)) by {
                    assert("/"@ =~= seq!['/']);
                }
            }
            let level = match self.scan("/", d.as_str(), true) {
                Ok(v) => v,
                Err(_) => {
                    proof {
                        assert(false);
                    }
                    Vec::new()
                },
            };
            let ghost ds = dir_slash(d@);
            let ghost pref = task_key(ds);
            proof {
                assert(ds.len() > 0 && ds.last() == '/') by {
                    if !(d@.len() > 0 && d@.last() == '/') {
                        assert(ds =~= d@ + seq!['/']);
                    }
                }
                assert(abs_path(ds)) by {
                    if !(d@.len() > 0 && d@.last() == '/') {
                        assert(ds[0] == d@[0]);
                    }
                }
                assert(spec_normalize("/"@, d@) == Some(d@));
                assert(task_key(dir_slash(spec_normalize("/"@, d@)->Some_0)) == pref);
            }
            let nlev = level.len();
            let mut ti: usize = 0;
            while ti < nlev
                invariant
                    ti <= nlev,
                    nlev == level@.len(),
                    forall|l2: int, n: Seq<char>|
                        0 <= l2 < lvl && #[trigger] offered_at(self@, dirs, l2, n) ==> name_in(
                            seen@,
                            n,
                        ),
                    forall|j: int|
                        0 <= j < ti && offered_at(
                            self@,
                            dirs,
                            lvl,
                            #[trigger] level@[j]@.name,
                        ) ==> name_in(seen@, level@[j]@.name),
                    forall|i: int|
                        0 <= i < out@.len() ==> visible_hit(self@, dirs, #[trigger] out@[i]@)
                            && out@[i].wf(),
                    seen@.len() == out@.len(),
                    forall|m: int| 0 <= m < seen@.len() ==> #[trigger] seen@[m]@ == out@[m]@.name,
                    forall|i: int, j: int|
                        0 <= i < j < out@.len() ==> out@[i]@.name != out@[j]@.name,
                    olvl.len() == out@.len(),
                    forall|m: int|
                        0 <= m < olvl.len() ==> #[trigger] olvl[m] <= lvl && first_offer(
                            self@,
                            dirs,
                            olvl[m],
                            out@[m]@.name,
                        ),
                    forall|m1: int, m2: int| 0 <= m1 < m2 < olvl.len() ==> olvl[m1] <= olvl[m2],
                    forall|l2: int, n: Seq<char>|
                        0 <= l2 < lvl && #[trigger] first_offer(self@, dirs, l2, n) ==> out_has(
                            out@,
                            n,
                        ),
                decreases nlev - ti,
            {
                let tname_len = level[ti].name().unicode_len();
                let already = name_seen(&seen, level[ti].name());
                let eligible = first || level[ti].inherit();
                let ghost tv = level@[ti as int]@;
                proof {
                    // the scanned entry is this level's record for its name
                    lemma_scan_child(ds, pref, tv);
                }
                if tname_len > 0 && !already && eligible {
                    proof {
                        assert(offered_at(self@, dirs, lvl, tv.name)) by {
                            assert(child_key(dirs[lvl], tv.name) == task_key(tv.path));
                        }
                        assert(first_offer(self@, dirs, lvl, tv.name)) by {
                            assert forall|m: int| 0 <= m < lvl implies !(
                            #[trigger] offered_at(self@, dirs, m, tv.name)) by {
                                if offered_at(self@, dirs, m, tv.name) {
                                    assert(name_in(seen@, tv.name));
                                }
                            }
                        }
                    }
                    let t2 = dup_task(&level[ti]);
                    let ghost out0 = out@;
                    let ghost seen0 = seen@;
                    seen.push(level[ti].name().to_owned());
                    out.push(t2);
                    proof {
                        olvl = olvl.push(lvl);
                        assert(seen@.len() == seen0.len() + 1);
                        assert(seen@[seen0.len() as int]@ == tv.name);
                        assert(forall|m: int| 0 <= m < seen0.len() ==> seen@[m] == seen0[m]);
                        assert(out@ =~= out0.push(t2));
                        assert(visible_hit(self@, dirs, tv)) by {
                            assert(first_offer(self@, dirs, lvl, tv.name) && tv.path
                                == dir_slash(dirs[lvl]) + tv.name && spec_decode_value(
                                self@[child_key(dirs[lvl], tv.name)],
                            ) == Some((tv.inherit, tv.extension, tv.content)));
                        }
                        assert forall|i: int, j: int|
                            0 <= i < j < out@.len() implies out@[i]@.name != out@[j]@.name by {
                            if j == out0.len() as int {
                                assert(out@[j]@ == tv);
                                assert(out@[i] == out0[i]);
                                if out@[i]@.name == tv.name {
                                    assert(seen0[i]@ == tv.name);
                                    assert(name_in(seen0, tv.name));
                                }
                            }
                        }
                        assert forall|n: Seq<char>| out_has(out0, n) implies out_has(
                            out@,
                            n,
                        ) by {
                            let w = choose|w: int|
                                0 <= w < out0.len() && #[trigger] out0[w]@.name == n;
                            assert(out@[w]@.name == n);
                        }
                    }
                } else {
                    proof {
                        if !already && !(tname_len == 0) && !eligible {
                            assert(!offered_at(self@, dirs, lvl, tv.name)) by {
                                assert(child_key(dirs[lvl], tv.name) == task_key(tv.path));
                            }
                        }
                    }
                }
                ti = ti + 1;
            }
            // this level is now fully covered: every name it offers is seen,
            // and every first offer here is in the output
            proof {
                assert forall|n: Seq<char>|
                    offered_at(self@, dirs, lvl, n) implies name_in(seen@, n) by {
                    let k = child_key(dirs[lvl], n);
                    assert(scan_selects(self@, pref, true, k)) by {
                        assert(has_prefix(k, pref)) by {
                            assert(k.subrange(0, pref.len() as int) =~= pref);
                        }
                        assert(!k.subrange(pref.len() as int, k.len() as int).contains('/'))
                            by {
                            let krem = k.subrange(pref.len() as int, k.len() as int);
                            assert(krem =~= n);
                            if krem.contains('/') {
                                let w = choose|w: int| 0 <= w < krem.len() && krem[w] == '/';
                                assert(n[w] == '/');
                            }
                        }
                    }
                    let i = choose|i: int|
                        0 <= i < level@.len() && task_key(#[trigger] level@[i]@.path) == k;
                    let tvi = level@[i]@;
                    assert(scan_hit(self@, pref, true, tvi) && level@[i].wf());
                    assert(has_prefix(task_key(tvi.path), pref));
                    lemma_scan_child(ds, pref, tvi);
                    lemma_task_key_injective(tvi.path, ds + n);
                    assert(tvi.path == ds + n);
                    assert(tvi.name =~= n) by {
                        assert((ds + tvi.name).len() == (ds + n).len());
                        assert(forall|x: int|
                            0 <= x < n.len() ==> (ds + tvi.name)[ds.len() + x] == tvi.name[x]
                                && (ds + n)[ds.len() + x] == n[x]);
                    }
                }
                assert forall|n: Seq<char>|
                    first_offer(self@, dirs, lvl, n) implies out_has(out@, n) by {
                    assert(offered_at(self@, dirs, lvl, n));
                    assert(name_in(seen@, n));
                    let m = choose|m: int| 0 <= m < seen@.len() && #[trigger] seen@[m]@ == n;
                    assert(out@[m]@.name == n);
                }
            }
            if d.as_str().unicode_len() <= 1 {
                proof {
                    assert(dirs.len() - lvl == 1);
                }
                break ;
            }
            proof {
                assert(dir_chain(d@).drop_first() =~= dir_chain(parent_dir(d@)));
                assert(dirs.subrange(lvl, dirs.len() as int).drop_first() =~= dirs.subrange(
                    lvl + 1,
                    dirs.len() as int,
                ));
                crate::path::lemma_parent_dir_shorter(d@);
                assert(dir_chain(parent_dir(d@))[0] == parent_dir(d@));
                assert(dirs.subrange(lvl + 1, dirs.len() as int)[0] == dirs[lvl + 1]);
            }
            d = crate::path::parent_of(&d);
            first = false;
            proof {
                lvl = lvl + 1;
            }
        }
        proof {
            assert forall|i: int, j: int, li: int, lj: int|
                0 <= i < j < out@.len() && #[trigger] first_offer(self@, dirs, li, out@[i]@.name)
                    && #[trigger] first_offer(self@, dirs, lj, out@[j]@.name) implies li
                <= lj by {
                lemma_first_offer_unique(self@, dirs, li, olvl[i], out@[i]@.name);
                lemma_first_offer_unique(self@, dirs, lj, olvl[j], out@[j]@.name);
            }
        }
        out
    }

    /// Rename: write a copy of the task at `from` under the name `to` in
    /// the directory `dir`, and delete the original, committed as one
    /// atomic batch.
    pub fn rename(&mut self, dir: &str, from: &str, to: &str) -> (r: Result<(), TaskError>)
        requires
            old(self).wf(),
            abs_path(dir@),
            !to@.contains('/'),
        ensures
            final(self).wf(),
            ({
                let norm = spec_normalize(dir@, from@);
                match r {
                    Ok(_) => {
                        &&& norm matches Some(q) && (spec_lookup(old(self)@, q) matches
                            Lookup::Found { inherit, extension, content } && final(self)@ == old(
                            self,
                        )@.insert(
                            task_key(join(dir@, to@)),
                            spec_encode_value(inherit, extension, content),
                        ).remove(task_key(q)))
                    },
                    Err(e) => final(self)@ == old(self)@ && match e {
                        TaskError::InvalidPath => norm is None,
                        TaskError::NotFound(n) => norm matches Some(q) && spec_lookup(
                            old(self)@,
                            q,
                        ) is Missing && n@ == from@,
                        TaskError::BrokenData => norm matches Some(q) && spec_lookup(
                            old(self)@,
                            q,
                        ) is Broken,
                        _ => false,
                    },
                }
            }),
    {
        let from_task = match self.open(dir, from) {
            Ok(t) => t,
            Err(e) => {
                return Err(e);
            },
        };
        let mut to_task = Task::current(dir, to);
        to_task.copy_from(&from_task);
        let ghost from_path = from_task@.path;
        let ghost to_view = to_task@;
        let mut batch = self.batch();
        let r1 = batch.save(&to_task);
        match r1 {
            Ok(_) => {},
            Err(e) => {
                return Err(e);
            },
        }
        let r2 = batch.remove_task(from_task);
        match r2 {
            Ok(_) => {},
            Err(e) => {
                return Err(e);
            },
        }
        let ghost opsv = batch@;
        let r3 = batch.commit(self);
        proof {
            let op1 = (
                task_key(to_view.path),
                Some(spec_encode_value(to_view.inherit, to_view.extension, to_view.content)),
            );
            let op2 = (task_key(from_path), None::<Seq<u8>>);
            assert(opsv =~= seq![op1, op2]);
            assert(opsv.drop_last() =~= seq![op1]);
            assert(seq![op1].drop_last() =~= Seq::<(Seq<char>, Option<Seq<u8>>)>::empty());
            assert(apply_ops(old(self)@, seq![op1].drop_last()) == old(self)@);
            assert(apply_ops(old(self)@, seq![op1]) == old(self)@.insert(
                task_key(to_view.path),
                spec_encode_value(to_view.inherit, to_view.extension, to_view.content),
            ));
            assert(apply_ops(old(self)@, opsv) == old(self)@.insert(
                task_key(to_view.path),
                spec_encode_value(to_view.inherit, to_view.extension, to_view.content),
            ).remove(task_key(from_path)));
        }
        r3
    }

    /// Open a fresh atomic multi-operation context.
    pub fn batch(&self) -> (r: WriteBatch)
        ensures
            r@ == Seq::<(Seq<char>, Option<Seq<u8>>)>::empty(),
    {
        let r = WriteBatch { ops: Vec::new() };
        proof {
            assert(r@ =~= Seq::<(Seq<char>, Option<Seq<u8>>)>::empty());
        }
        r
    }
}

/// Buffered put/delete operations committed to the store as one unit.
pub struct WriteBatch {
    ops: Vec<BatchOp>,
}

impl View for WriteBatch {
    type V = Seq<(Seq<char>, Option<Seq<u8>>)>;

    closed spec fn view(&self) -> Seq<(Seq<char>, Option<Seq<u8>>)> {
        ops_view(self.ops@)
    }
}

impl WriteBatch {
    /// Buffer a save of `task`.
    pub fn save(&mut self, task: &Task) -> (r: Result<(), TaskError>)
        ensures
            r is Ok,
            final(self)@ == old(self)@.push(
                (
                    task_key(task@.path),
                    Some(spec_encode_value(task@.inherit, task@.extension, task@.content)),
                ),
            ),
    {
        let key = encode_key(task.path.as_str());
        let val = encode_value_bytes(task.inherit, &task.extension, &task.content);
        let ghost before = self@;
        self.ops.push(BatchOp::Put(key, val));
        proof {
            assert(self@ =~= before.push(
                (
                    task_key(task@.path),
                    Some(spec_encode_value(task@.inherit, task@.extension, task@.content)),
                ),
            ));
        }
        Ok(())
    }

    /// Buffer a delete of the entry for `path`.
    pub fn remove(&mut self, base: &str, path: &str) -> (r: Result<(), TaskError>)
        ensures
            ({
                let norm = spec_normalize(base@, path@);
                match r {
                    Ok(_) => norm matches Some(q) && final(self)@ == old(self)@.push(
                        (task_key(q), None),
                    ),
                    Err(e) => e is InvalidPath && norm is None && final(self)@ == old(self)@,
                }
            }),
    {
        let q = match normalize(base, path) {
            Some(q) => q,
            None => {
                return Err(TaskError::InvalidPath);
            },
        };
        let key = encode_key(q.as_str());
        let ghost before = self@;
        self.ops.push(BatchOp::Del(key));
        proof {
            assert(self@ =~= before.push((task_key(q@), None)));
        }
        Ok(())
    }

    /// Buffer a delete of an open task's entry.
    pub fn remove_task(&mut self, task: Task) -> (r: Result<(), TaskError>)
        ensures
            r is Ok,
            final(self)@ == old(self)@.push((task_key(task@.path), None)),
    {
        let key = encode_key(task.path.as_str());
        let ghost before = self@;
        self.ops.push(BatchOp::Del(key));
        proof {
            assert(self@ =~= before.push((task_key(task@.path), None)));
        }
        Ok(())
    }

    /// Apply every buffered operation to the store, in order, as one unit:
    /// after a successful commit all of them are visible.
    pub fn commit(self, ts: &mut TaskSystem) -> (r: Result<(), TaskError>)
        requires
            old(ts).wf(),
        ensures
            final(ts).wf(),
            r is Ok,
            final(ts)@ == apply_ops(old(ts)@, self@),
    {
        ts.db.apply_batch(&self.ops);
        Ok(())
    }
}

/// Law: after a save, opening the saved path finds the task's own fields.
pub proof fn lemma_save_then_open(db: Map<Seq<char>, Seq<u8>>, t: TaskView)
    requires
        t.extension.len() < 0x10000000000000000,
    ensures
        spec_lookup(
            db.insert(task_key(t.path), spec_encode_value(t.inherit, t.extension, t.content)),
            t.path,
        ) == (Lookup::Found { inherit: t.inherit, extension: t.extension, content: t.content }),
{
    lemma_value_round_trip(t.inherit, t.extension, t.content);
}

/// Law: after a remove, the path holds nothing: opening it reports absence.
pub proof fn lemma_remove_then_absent(db: Map<Seq<char>, Seq<u8>>, path: Seq<char>)
    ensures
        spec_lookup(db.remove(task_key(path)), path) is Missing,
{
}

/// Law: a rename batch (save the copy at `to`, then remove `from`) commits
/// to a state where `to` holds the record, `from` is gone, and every other
/// key is untouched; a batch that is not committed changes nothing, so the
/// store never shows a half-applied rename.
pub proof fn lemma_rename_batch(
    db: Map<Seq<char>, Seq<u8>>,
    from: Seq<char>,
    to: Seq<char>,
    v: Seq<u8>,
)
    requires
        from != to,
    ensures
        ({
            let ops = seq![
                (task_key(to), Some(v)),
                (task_key(from), None::<Seq<u8>>),
            ];
            let db2 = apply_ops(db, ops);
            &&& db2.contains_key(task_key(to)) && db2[task_key(to)] == v
            &&& !db2.contains_key(task_key(from))
            &&& forall|k: Seq<char>|
                k != task_key(from) && k != task_key(to) ==> (db2.contains_key(k)
                    <==> db.contains_key(k)) && (db2.contains_key(k) ==> db2[k] == db[k])
        }),
{
    lemma_task_key_injective(from, to);
    let ops = seq![
        (task_key(to), Some(v)),
        (task_key(from), None::<Seq<u8>>),
    ];
    assert(ops.drop_last() =~= seq![(task_key(to), Some(v))]);
    assert(ops.drop_last().drop_last() =~= Seq::<(Seq<char>, Option<Seq<u8>>)>::empty());
    assert(apply_ops(db, ops.drop_last().drop_last()) == db);
    assert(apply_ops(db, ops.drop_last()) == db.insert(task_key(to), v));
    assert(apply_ops(db, ops) == db.insert(task_key(to), v).remove(task_key(from)));
}

/// A usable task name: file-like, not a directory walk.
pub open spec fn valid_task_name(name: Seq<char>) -> bool {
    &&& name != seq!['.']
    &&& name != seq!['.', '.']
    &&& !name.contains('/')
}

/// Check a task name, with a user-facing explanation on rejection.
pub fn validate_task_name(name: &str) -> (r: Result<(), crate::error::Error>)
    ensures
        r is Ok <==> valid_task_name(name@),
        r matches Err(e) ==> e.message_view() == seq!['\''] + name@
            + "' is invalid name for a task"@,
        r matches Err(e) ==> if name@ == seq!['.'] || name@ == seq!['.', '.'] || (name@.len() > 0
            && name@.last() == '/') {
            e.suggest_view() == "A task is like a file rather than a directory"@
        } else {
            e.suggest_view()
                == "If you want to create a task in another directory, you should go there and try again. Or could you drop '/' in your task?"@
        },
{
    let n = name.unicode_len();
    let file_like = !(n == 1 && name.get_char(0) == '.') && !(n == 2 && name.get_char(0) == '.'
        && name.get_char(1) == '.') && !(n > 0 && name.get_char(n - 1) == '/');
    let dotted = n == 1 && name.get_char(0) == '.' || n == 2 && name.get_char(0) == '.'
        && name.get_char(1) == '.' || n > 0 && name.get_char(n - 1) == '/';
    let slashed = contains_sep_from(name, 0);
    proof {
        assert(name@.subrange(0, n as int) =~= name@);
        if name@ == seq!['.'] {
            assert(name@[0] == '.');
        }
        if name@ == seq!['.', '.'] {
            assert(name@[0] == '.' && name@[1] == '.');
        }
        if n > 0 && name@[n - 1] == '/' {
            assert(name@.contains('/')) by {
                assert(name@[n as int - 1] == '/');
            }
        }
        if n == 1 && name@[0] == '.' {
            assert(name@ =~= seq!['.']);
        }
        if n == 2 && name@[0] == '.' && name@[1] == '.' {
            assert(name@ =~= seq!['.', '.']);
        }
    }
    if !dotted && !slashed {
        return Ok(());
    }
    let mut message = String::from_str("'");
    message.append(name);
    message.append("' is invalid name for a task");
    proof {
        reveal_strlit("'");
        assert("'"@ =~= seq!['\'']);
    }
    let suggest = if dotted {
        String::from_str("A task is like a file rather than a directory")
    } else {
        String::from_str(
            "If you want to create a task in another directory, you should go there and try again. Or could you drop '/' in your task?",
        )
    };
    Err(crate::error::Error::with_suggest(message, suggest))
}

} // verus!
