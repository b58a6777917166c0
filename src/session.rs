use vstd::prelude::*;
use crate::expand::{
    decls_view,
    expand_with,
    lemma_unchanged_without_decls,
    offsets,
    spliced,
    texts_view,
    well_placed,
    ModDecl,
};
use crate::locate::{bodyless, located_decls, locatable, mod_declarations, DeclError};
use crate::outline::{outline_of, ItemView};
use crate::paths::{
    copy_path,
    candidate,
    direct_candidate,
    entry_candidate,
    get_mod,
    mod_dir,
    mod_dir_of,
    lemma_paths_push,
    paths_view,
    PathError,
    SrcPath,
};

verus! {

/// How deep module files may nest; deeper nesting means that a module
/// refers back to one of its ancestors.
pub const MAX_DEPTH: usize = 256;

/// Why an expansion failed. Each variant names the file being processed.
#[derive(Debug, PartialEq, Eq)]
pub enum ExpandError {
    /// The directory context of the file at `path` could not be derived.
    Path { path: SrcPath, error: PathError },
    /// The file at `path` is not valid source text.
    Parse { path: SrcPath, message: String },
    /// The parser placed a terminator of the file at `path` outside its text.
    Position { path: SrcPath },
    /// Neither `<name>.rs` nor `<name>/mod.rs` exists in `dir`.
    ModuleNotFound { name: String, dir: SrcPath },
    /// The file at `path` would nest deeper than `MAX_DEPTH`.
    TooDeep { path: SrcPath },
}

/// What the caller does next.
#[derive(Debug, PartialEq, Eq)]
pub enum Action {
    /// Read this file and hand its text, or `None` when it cannot be read,
    /// to `Expansion::resume`.
    Read(SrcPath),
    /// The flattened text of the root file.
    Done(String),
    /// The expansion stopped on an error.
    Fail(ExpandError),
}

/// A file being expanded: its text, its declarations and the expanded
/// bodies of the declarations handled so far.
struct Frame {
    path: SrcPath,
    text: String,
    dir: SrcPath,
    decls: Vec<ModDecl>,
    bodies: Vec<String>,
}

impl Frame {
    spec fn level(&self) -> Level {
        (self.path@, self.text@, decls_view(self.decls@), texts_view(self.bodies@))
    }

    spec fn wf(&self) -> bool {
        &&& self.bodies@.len() <= self.decls@.len()
        &&& well_placed(self.text@, decls_view(self.decls@))
        &&& mod_dir_of(self.path@) == Ok::<Seq<Seq<char>>, PathError>(self.dir@)
    }
}

/// An open file as plain values: its path, its text, its bodyless
/// declarations (name and terminator offset), and the expanded bodies
/// gathered so far, one per declaration handled.
pub type Level = (Seq<Seq<char>>, Seq<char>, Seq<(Seq<char>, int)>, Seq<Seq<char>>);

/// The level of the file at `path` just opened with `text`, whose top-level
/// items are `items`.
pub open spec fn new_level(path: Seq<Seq<char>>, text: Seq<char>, items: Seq<ItemView>) -> Level {
    (path, text, located_decls(text, items), Seq::empty())
}

/// The file at `path` with `text` opens: its directory context derives, it
/// parses, and its declarations are placed.
pub open spec fn opens(path: Seq<Seq<char>>, text: Seq<char>) -> bool {
    &&& mod_dir_of(path) is Ok
    &&& outline_of(text) is Some
    &&& locatable(text, outline_of(text)->0)
}

/// Closes every innermost file whose declarations all have their bodies,
/// handing its spliced text to the file that declared it, until a file
/// still has a declaration to resolve; the root's spliced text comes out
/// when the root itself closes.
pub open spec fn settle(levels: Seq<Level>) -> (Seq<Level>, Option<Seq<char>>)
    decreases levels.len(),
{
    if levels.len() == 0 {
        (levels, None)
    } else {
        let top = levels.last();
        if top.3.len() < top.2.len() {
            (levels, None)
        } else {
            let out = spliced(top.1, offsets(top.2), top.3);
            let rest = levels.drop_last();
            if rest.len() == 0 {
                (rest, Some(out))
            } else {
                let parent = rest.last();
                settle(rest.drop_last().push((parent.0, parent.1, parent.2, parent.3.push(out))))
            }
        }
    }
}

/// What the caller is asked to do after `levels` settle.
pub open spec fn settled_action(levels: Seq<Level>, a: Action) -> bool {
    match settle(levels).1 {
        Some(out) => a matches Action::Done(r) && r@ == out,
        None => a is Read,
    }
}

/// A flattening in progress: the chain of files from the root to the one
/// whose module is being looked for.
pub struct Expansion {
    frames: Vec<Frame>,
    tried: usize,
    failed: bool,
}

impl Expansion {
    /// The consistency of the chain of files.
    pub closed spec fn wf(&self) -> bool {
        &&& self.frames@.len() <= MAX_DEPTH
        &&& forall|i: int| 0 <= i < self.frames@.len() ==> (#[trigger] self.frames@[i]).wf()
        &&& forall|i: int|
            0 <= i < self.frames@.len() ==> (#[trigger] self.frames@[i]).bodies@.len()
                < self.frames@[i].decls@.len()
        &&& self.tried <= 1
    }

    /// The open files, root first.
    pub closed spec fn levels(&self) -> Seq<Level> {
        self.frames@.map_values(|f: Frame| f.level())
    }

    /// A file was asked for and the expansion waits for it.
    pub closed spec fn waiting(&self) -> bool {
        self.frames@.len() > 0 && !self.failed
    }

    /// The paths of the open files, root first: after a failure, the chain
    /// of files that led to it.
    pub closed spec fn open_paths(&self) -> Seq<Seq<Seq<char>>> {
        self.frames@.map_values(|f: Frame| f.path@)
    }

    /// The paths of the open files, root first. After a failure these are
    /// the files whose declarations led to the failing one.
    pub fn open_files(&self) -> (r: Vec<SrcPath>)
        ensures
            paths_view(r@) == self.open_paths(),
    {
        let mut r: Vec<SrcPath> = Vec::new();
        let mut i: usize = 0;
        while i < self.frames.len()
            invariant
                i <= self.frames@.len(),
                paths_view(r@) == self.open_paths().take(i as int),
            decreases self.frames@.len() - i,
        {
            let ghost before = r@;
            let p = copy_path(&self.frames[i].path);
            r.push(p);
            proof {
                lemma_paths_push(before, p);
                assert(self.open_paths().take(i + 1) =~= self.open_paths().take(i as int).push(
                    self.frames@[i as int].path@,
                ));
            }
            i = i + 1;
        }
        assert(self.open_paths().take(i as int) =~= self.open_paths());
        r
    }

    /// How many files are open, the root included.
    pub closed spec fn depth(&self) -> nat {
        self.frames@.len()
    }

    /// The module being looked for.
    pub closed spec fn pending_name(&self) -> Seq<char> {
        let top = self.frames@.last();
        top.decls@[top.bodies@.len() as int].name@
    }

    /// The directory it is looked for in.
    pub closed spec fn pending_dir(&self) -> Seq<Seq<char>> {
        self.frames@.last().dir@
    }

    /// How many candidate files of the pending module were missing.
    pub closed spec fn tried(&self) -> nat {
        self.tried as nat
    }

    /// Whether the expansion waits for a file.
    pub fn is_waiting(&self) -> (r: bool)
        ensures
            r == self.waiting(),
    {
        self.frames.len() > 0 && !self.failed
    }

    /// Moves on until a file is needed or the root file is complete.
    fn advance(&mut self) -> (a: Action)
        requires
            old(self).frames@.len() > 0,
            old(self).frames@.len() <= MAX_DEPTH,
            forall|i: int|
                0 <= i < old(self).frames@.len() ==> (#[trigger] old(self).frames@[i]).wf(),
            forall|i: int|
                0 <= i < old(self).frames@.len() - 1 ==> (#[trigger] old(
                    self,
                ).frames@[i]).bodies@.len() < old(self).frames@[i].decls@.len(),
            old(self).tried <= 1,
            !old(self).failed,
        ensures
            final(self).wf(),
            a is Read <==> final(self).waiting(),
            a matches Action::Read(p) ==> p@ == direct_candidate(
                final(self).pending_name(),
                final(self).pending_dir(),
            ) && final(self).tried() == 0,
            final(self).levels() == settle(old(self).levels()).0,
            settled_action(old(self).levels(), a),
    {
        loop
            invariant
                self.frames@.len() > 0,
                self.frames@.len() <= MAX_DEPTH,
                forall|i: int| 0 <= i < self.frames@.len() ==> (#[trigger] self.frames@[i]).wf(),
                forall|i: int|
                    0 <= i < self.frames@.len() - 1 ==> (#[trigger] self.frames@[i]).bodies@.len()
                        < self.frames@[i].decls@.len(),
                self.tried <= 1,
                !self.failed,
                settle(self.levels()) == settle(old(self).levels()),
            decreases self.frames@.len(),
        {
            let k = self.frames.len() - 1;
            let nb = self.frames[k].bodies.len();
            if nb < self.frames[k].decls.len() {
                self.tried = 0;
                return Action::Read(
                    get_mod(self.frames[k].decls[nb].name.as_str(), &self.frames[k].dir, 0),
                );
            }
            let ghost before = self.levels();
            assert(before.last() == self.frames@[k as int].level());
            let top = self.frames.pop().unwrap();
            assert(top.wf());
            let out = expand_with(top.text.as_str(), &top.decls, &top.bodies);
            if self.frames.len() == 0 {
                assert(before.drop_last().len() == 0);
                return Action::Done(out);
            }
            assert(self.levels() =~= before.drop_last());
            let mut parent = self.frames.pop().unwrap();
            let ghost old_parent_bodies = parent.bodies@;
            let ghost rest = self.levels();
            assert(rest =~= before.drop_last().drop_last());
            assert(before.drop_last().last() == parent.level());
            parent.bodies.push(out);
            self.frames.push(parent);
            proof {
                assert(texts_view(parent.bodies@) =~= texts_view(old_parent_bodies).push(out@));
                assert(self.levels() =~= rest.push(parent.level()));
                let t = before.last();
                assert(t.3.len() == t.2.len());
                let pl = before.drop_last().last();
                assert(self.levels() =~= before.drop_last().drop_last().push(
                    (pl.0, pl.1, pl.2, pl.3.push(spliced(t.1, offsets(t.2), t.3))),
                ));
            }
        }
    }

    /// Hands over the text of the file last asked for, or `None` when it
    /// could not be read. A module is taken from `<name>.rs` when that file
    /// exists, and from `<name>/mod.rs` only otherwise.
    pub fn resume(&mut self, found: Option<String>) -> (a: Action)
        requires
            old(self).wf(),
            old(self).waiting(),
        ensures
            final(self).wf(),
            a is Read <==> final(self).waiting(),
            a is Fail ==> final(self).open_paths() == old(self).open_paths(),
            found is Some ==> (a matches Action::Read(p) ==> p@ == direct_candidate(
                final(self).pending_name(),
                final(self).pending_dir(),
            ) && final(self).tried() == 0),
            a matches Action::Read(p) ==> p@ == candidate(
                final(self).pending_name(),
                final(self).pending_dir(),
                final(self).tried(),
            ),
            found is None && old(self).tried() == 0 ==> (a matches Action::Read(p) && p@
                == entry_candidate(old(self).pending_name(), old(self).pending_dir())
                && final(self).pending_name() == old(self).pending_name()
                && final(self).pending_dir() == old(self).pending_dir() && final(self).tried()
                == 1),
            found is None && old(self).tried() == 1 ==> (a matches Action::Fail(
                ExpandError::ModuleNotFound { name, dir },
            ) && name@ == old(self).pending_name() && dir@ == old(self).pending_dir()),
            found matches Some(text) ==> {
                let path = candidate(
                    old(self).pending_name(),
                    old(self).pending_dir(),
                    old(self).tried(),
                );
                &&& old(self).depth() >= MAX_DEPTH ==> (a matches Action::Fail(
                    ExpandError::TooDeep { path: p },
                ) && p@ == path)
                &&& old(self).depth() < MAX_DEPTH ==> open_outcome(path, text@, a)
                &&& old(self).depth() < MAX_DEPTH && opens(path, text@) ==> {
                    let levels = old(self).levels().push(
                        new_level(path, text@, outline_of(text@)->0),
                    );
                    &&& final(self).levels() == settle(levels).0
                    &&& settled_action(levels, a)
                }
            },
    {
        let k = self.frames.len() - 1;
        let nb = self.frames[k].bodies.len();
        let name = self.frames[k].decls[nb].name.as_str();
        match found {
            None => {
                if self.tried == 0 {
                    self.tried = 1;
                    Action::Read(get_mod(name, &self.frames[k].dir, 1))
                } else {
                    let dir = copy_path(&self.frames[k].dir);
                    let name = String::from_str(name);
                    self.failed = true;
                    Action::Fail(ExpandError::ModuleNotFound { name, dir })
                }
            },
            Some(text) => {
                let path = get_mod(name, &self.frames[k].dir, self.tried);
                if self.frames.len() >= MAX_DEPTH {
                    self.failed = true;
                    return Action::Fail(ExpandError::TooDeep { path });
                }
                match open_frame(path, text) {
                    Ok(frame) => {
                        let ghost before = self.levels();
                        self.frames.push(frame);
                        proof {
                            assert(texts_view(frame.bodies@) =~= Seq::<Seq<char>>::empty());
                            assert(self.levels() =~= before.push(frame.level()));
                        }
                        self.advance()
                    },
                    Err(e) => {
                        self.failed = true;
                        Action::Fail(e)
                    },
                }
            },
        }
    }
}

/// What opening the file at `path` with `text` leads to: an error of that
/// file, or the first module of the file (or of an ancestor that still has
/// one) asked for, or the finished text.
pub open spec fn open_outcome(path: Seq<Seq<char>>, text: Seq<char>, a: Action) -> bool {
    match mod_dir_of(path) {
        Err(e) => a matches Action::Fail(ExpandError::Path { path: p, error }) && p@ == path
            && error == e,
        Ok(_) => match outline_of(text) {
            None => a matches Action::Fail(ExpandError::Parse { path: p, .. }) && p@ == path,
            Some(items) => {
                if locatable(text, items) {
                    a is Read || a is Done
                } else {
                    a matches Action::Fail(ExpandError::Position { path: p }) && p@ == path
                }
            },
        },
    }
}

/// Reads the declarations of the file at `path`.
fn open_frame(path: SrcPath, text: String) -> (r: Result<Frame, ExpandError>)
    ensures
        match mod_dir_of(path@) {
            Err(e) => r matches Err(ExpandError::Path { path: p, error }) && p@ == path@ && error
                == e,
            Ok(_) => match outline_of(text@) {
                None => r matches Err(ExpandError::Parse { path: p, .. }) && p@ == path@,
                Some(items) => {
                    if locatable(text@, items) {
                        r matches Ok(f) && f.wf() && f.path@ == path@ && f.text@ == text@
                            && decls_view(f.decls@) == located_decls(text@, items) && f.bodies@.len()
                            == 0
                    } else {
                        r matches Err(ExpandError::Position { path: p }) && p@ == path@
                    }
                },
            },
        },
{
    let dir = match mod_dir(&path) {
        Ok(d) => d,
        Err(error) => {
            return Err(ExpandError::Path { path, error });
        },
    };
    match mod_declarations(text.as_str()) {
        Ok(decls) => Ok(Frame { path, text, dir, decls, bodies: Vec::new() }),
        Err(DeclError::Syntax(message)) => Err(ExpandError::Parse { path, message }),
        Err(DeclError::Position) => Err(ExpandError::Position { path }),
    }
}

/// Starts flattening the file at `path`, whose text is `file`.
pub fn expand(file: &str, path: &SrcPath) -> (r: (Expansion, Action))
    ensures
        r.0.wf(),
        r.1 is Read <==> r.0.waiting(),
        open_outcome(path@, file@, r.1),
        r.1 matches Action::Read(p) ==> p@ == direct_candidate(r.0.pending_name(), r.0.pending_dir())
            && r.0.tried() == 0,
        opens(path@, file@) ==> {
            let levels = seq![new_level(path@, file@, outline_of(file@)->0)];
            &&& r.0.levels() == settle(levels).0
            &&& settled_action(levels, r.1)
        },
        (mod_dir_of(path@) is Ok && (outline_of(file@) matches Some(items) && bodyless(
            items,
        ).len() == 0)) ==> (r.1 matches Action::Done(out) && out@ == file@),
{
    let mut session = Expansion { frames: Vec::new(), tried: 0, failed: false };
    match open_frame(copy_path(path), String::from_str(file)) {
        Ok(frame) => {
            let ghost f = frame;
            session.frames.push(frame);
            proof {
                assert(texts_view(f.bodies@) =~= Seq::<Seq<char>>::empty());
                assert(session.levels() =~= seq![f.level()]);
                if f.decls@.len() == 0 {
                    assert(spliced(file@, offsets(decls_view(f.decls@)), texts_view(f.bodies@))
                        =~= file@);
                }
            }
            let a = session.advance();
            (session, a)
        },
        Err(e) => (session, Action::Fail(e)),
    }
}

/// A text that holds no bodyless module declaration, such as one already
/// flattened, settles at once to itself: expanding it gives it back.
pub proof fn lemma_flat_text_settles_to_itself(
    path: Seq<Seq<char>>,
    text: Seq<char>,
    items: Seq<ItemView>,
)
    requires
        bodyless(items).len() == 0,
    ensures
        settle(seq![new_level(path, text, items)]) == (Seq::<Level>::empty(), Some(text)),
{
    let l = new_level(path, text, items);
    assert(offsets(l.2) =~= Seq::<int>::empty());
    lemma_unchanged_without_decls(text, l.3);
    assert(seq![l].drop_last() =~= Seq::<Level>::empty());
}

/// The open files are those of the levels, root first. While the
/// expansion waits, the module looked for is the next bodyless declaration
/// of the innermost open file that has no body yet, and it is looked for in
/// the directory context of that file's own path.
pub proof fn lemma_pending_of_levels(s: Expansion)
    requires
        s.wf(),
    ensures
        s.open_paths() == s.levels().map_values(|l: Level| l.0),
        s.waiting() ==> ({
            let top = s.levels().last();
            &&& top.3.len() < top.2.len()
            &&& s.pending_name() == top.2[top.3.len() as int].0
            &&& mod_dir_of(top.0) is Ok
            &&& s.pending_dir() == mod_dir_of(top.0)->Ok_0
        }),
{
    assert(s.open_paths() =~= s.levels().map_values(|l: Level| l.0));
    if s.waiting() {
        let k = s.frames@.len() - 1;
        assert(s.frames@[k].wf());
        assert(s.levels().last() == s.frames@[k].level());
    }
}

} // verus!
