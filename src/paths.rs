use vstd::prelude::*;
use vstd::string::*;
use crate::expand::texts_view;
use crate::locate::chars_of;

verus! {

/// A file system path as its components, outermost first (`src/a/b.rs` is
/// `["src", "a", "b.rs"]`).
#[derive(Debug, PartialEq, Eq)]
pub struct SrcPath {
    pub parts: Vec<String>,
}

impl View for SrcPath {
    type V = Seq<Seq<char>>;

    open spec fn view(&self) -> Seq<Seq<char>> {
        texts_view(self.parts@)
    }
}

/// Why a file's directory context could not be derived.
#[derive(Clone, Copy, PartialEq, Eq, Debug)]
pub enum PathError {
    /// The path has no parent directory.
    NoParent,
    /// The path has no file name to take a stem from.
    NoFileName,
}

/// The last component, if it names a file (`.`, `..` and `/` do not).
pub open spec fn file_name(p: Seq<Seq<char>>) -> Option<Seq<char>> {
    if p.len() == 0 {
        None
    } else {
        let last = p.last();
        if last.len() == 0 || last == seq!['.'] || last == seq!['.', '.'] || last == seq!['/'] {
            None
        } else {
            Some(last)
        }
    }
}

/// Index of the last `.` of `s`, or -1.
pub open spec fn last_dot(s: Seq<char>) -> int
    decreases s.len(),
{
    if s.len() == 0 {
        -1
    } else if s.last() == '.' {
        s.len() - 1
    } else {
        last_dot(s.drop_last())
    }
}

/// A file name without its extension: everything before the last `.`,
/// unless that `.` begins the name.
pub open spec fn stem_of(name: Seq<char>) -> Seq<char> {
    if last_dot(name) <= 0 {
        name
    } else {
        name.take(last_dot(name))
    }
}

/// The stems of files that are the root of their own directory's modules.
pub open spec fn is_entry_alias(stem: Seq<char>) -> bool {
    stem == seq!['m', 'a', 'i', 'n'] || stem == seq!['l', 'i', 'b'] || stem == seq!['m', 'o', 'd']
}

/// The directory against which the child modules of the file at `p` are
/// resolved.
pub open spec fn mod_dir_of(p: Seq<Seq<char>>) -> Result<Seq<Seq<char>>, PathError> {
    if p.len() == 0 {
        Err(PathError::NoParent)
    } else {
        match file_name(p) {
            None => Err(PathError::NoFileName),
            Some(name) => if is_entry_alias(stem_of(name)) {
                Ok(p.drop_last())
            } else {
                Ok(p.drop_last().push(stem_of(name)))
            },
        }
    }
}

pub open spec fn rs_ext() -> Seq<char> {
    seq!['.', 'r', 's']
}

/// `<name>.rs` in `dir`.
pub open spec fn direct_candidate(name: Seq<char>, dir: Seq<Seq<char>>) -> Seq<Seq<char>> {
    dir.push(name + rs_ext())
}

/// `<name>/mod.rs` in `dir`.
pub open spec fn entry_candidate(name: Seq<char>, dir: Seq<Seq<char>>) -> Seq<Seq<char>> {
    dir.push(name).push(seq!['m', 'o', 'd', '.', 'r', 's'])
}

pub open spec fn strs_view(v: Seq<&str>) -> Seq<Seq<char>> {
    v.map_values(|s: &str| s@)
}

proof fn lemma_last_dot_range(s: Seq<char>)
    ensures
        -1 <= last_dot(s) < s.len(),
    decreases s.len(),
{
    if s.len() > 0 {
        lemma_last_dot_range(s.drop_last());
    }
}

pub open spec fn paths_view(v: Seq<SrcPath>) -> Seq<Seq<Seq<char>>> {
    v.map_values(|p: SrcPath| p@)
}

pub proof fn lemma_paths_push(v: Seq<SrcPath>, x: SrcPath)
    ensures
        paths_view(v.push(x)) == paths_view(v).push(x@),
{
    assert(paths_view(v.push(x)) =~= paths_view(v).push(x@));
}

proof fn lemma_texts_push(v: Seq<String>, x: String)
    ensures
        texts_view(v.push(x)) == texts_view(v).push(x@),
{
    assert(texts_view(v.push(x)) =~= texts_view(v).push(x@));
}

proof fn lemma_strs_push(v: Seq<&str>, x: &str)
    ensures
        strs_view(v.push(x)) == strs_view(v).push(x@),
{
    assert(strs_view(v.push(x)) =~= strs_view(v).push(x@));
}

fn last_dot_index(s: &Vec<char>) -> (r: Option<usize>)
    ensures
        match r {
            Some(i) => i as int == last_dot(s@),
            None => last_dot(s@) == -1,
        },
{
    let mut i: usize = s.len();
    assert(s@.take(i as int) =~= s@);
    while i > 0
        invariant
            i <= s@.len(),
            last_dot(s@) == last_dot(s@.take(i as int)),
        decreases i,
    {
        assert(s@.take(i as int).drop_last() =~= s@.take(i - 1));
        if s[i - 1] == '.' {
            return Some(i - 1);
        }
        i = i - 1;
    }
    None
}

fn entry_alias(c: &Vec<char>) -> (r: bool)
    ensures
        r == is_entry_alias(c@),
{
    let main = c.len() == 4 && c[0] == 'm' && c[1] == 'a' && c[2] == 'i' && c[3] == 'n';
    let lib = c.len() == 3 && c[0] == 'l' && c[1] == 'i' && c[2] == 'b';
    let md = c.len() == 3 && c[0] == 'm' && c[1] == 'o' && c[2] == 'd';
    assert(main == (c@ == seq!['m', 'a', 'i', 'n'])) by {
        if c@.len() == 4 {
            assert(main ==> c@ =~= seq!['m', 'a', 'i', 'n']);
        }
    }
    assert(lib == (c@ == seq!['l', 'i', 'b'])) by {
        if c@.len() == 3 {
            assert(lib ==> c@ =~= seq!['l', 'i', 'b']);
        }
    }
    assert(md == (c@ == seq!['m', 'o', 'd'])) by {
        if c@.len() == 3 {
            assert(md ==> c@ =~= seq!['m', 'o', 'd']);
        }
    }
    main || lib || md
}

pub(crate) fn copy_path(p: &SrcPath) -> (r: SrcPath)
    ensures
        r@ == p@,
{
    let mut parts: Vec<String> = Vec::new();
    let mut i: usize = 0;
    while i < p.parts.len()
        invariant
            i <= p.parts@.len(),
            texts_view(parts@) == p@.take(i as int),
        decreases p.parts@.len() - i,
    {
        let ghost before = parts@;
        parts.push(p.parts[i].clone());
        proof {
            lemma_texts_push(before, p.parts@[i as int]);
            assert(p@.take(i + 1) =~= p@.take(i as int).push(p.parts@[i as int]@));
        }
        i = i + 1;
    }
    assert(p@.take(i as int) =~= p@);
    SrcPath { parts }
}

/// The directory that the child modules of the file at `path` live in:
/// its parent directory for `main.rs`, `lib.rs` and `mod.rs`, else the
/// parent directory joined with the file's stem (`src/foo.rs` gives
/// `src/foo`).
pub fn mod_dir(path: &SrcPath) -> (r: Result<SrcPath, PathError>)
    ensures
        match r {
            Ok(d) => mod_dir_of(path@) == Ok::<Seq<Seq<char>>, PathError>(d@),
            Err(e) => mod_dir_of(path@) == Err::<Seq<Seq<char>>, PathError>(e),
        },
{
    let n = path.parts.len();
    if n == 0 {
        return Err(PathError::NoParent);
    }
    let last = path.parts[n - 1].as_str();
    let name = chars_of(last);
    assert(name@ == path@.last());
    let plain = name.len() > 0 && !(name.len() == 1 && (name[0] == '.' || name[0] == '/')) && !(
    name.len() == 2 && name[0] == '.' && name[1] == '.');
    assert(plain == (file_name(path@) is Some)) by {
        if name@.len() == 1 && name@[0] == '.' {
            assert(name@ =~= seq!['.']);
        }
        if name@.len() == 1 && name@[0] == '/' {
            assert(name@ =~= seq!['/']);
        }
        if name@.len() == 2 && name@[0] == '.' && name@[1] == '.' {
            assert(name@ =~= seq!['.', '.']);
        }
    }
    if !plain {
        return Err(PathError::NoFileName);
    }
    proof {
        lemma_last_dot_range(name@);
    }
    let stem: String = match last_dot_index(&name) {
        Some(d) if d > 0 => String::from_str(last.substring_char(0, d)),
        _ => String::from_str(last),
    };
    assert(stem@ == stem_of(name@));
    let stem_chars = chars_of(stem.as_str());
    let mut dir = copy_path(path);
    let _ = dir.parts.pop();
    assert(dir@ =~= path@.drop_last());
    if !entry_alias(&stem_chars) {
        dir.parts.push(stem);
        assert(dir@ =~= path@.drop_last().push(stem_of(name@)));
    }
    Ok(dir)
}

/// `base` with each of `nodes` appended as a component.
pub fn extend_path(base: &SrcPath, nodes: &[&str]) -> (r: SrcPath)
    ensures
        r@ == base@ + strs_view(nodes@),
{
    let mut path = copy_path(base);
    let mut i: usize = 0;
    while i < nodes.len()
        invariant
            i <= nodes@.len(),
            path@ == base@ + strs_view(nodes@.take(i as int)),
        decreases nodes@.len() - i,
    {
        let ghost before = path.parts@;
        let part = String::from_str(nodes[i]);
        path.parts.push(part);
        proof {
            lemma_texts_push(before, part);
            lemma_strs_push(nodes@.take(i as int), nodes@[i as int]);
            assert(nodes@.take(i + 1) =~= nodes@.take(i as int).push(nodes@[i as int]));
            assert(path@ =~= base@ + strs_view(nodes@.take(i + 1)));
        }
        i = i + 1;
    }
    assert(nodes@.take(i as int) =~= nodes@);
    path
}

/// `base` with one more component.
fn child(base: &SrcPath, part: String) -> (r: SrcPath)
    ensures
        r@ == base@.push(part@),
{
    let mut path = copy_path(base);
    let ghost before = path.parts@;
    path.parts.push(part);
    proof {
        lemma_texts_push(before, part);
    }
    path
}

/// The file that is tried for module `name` in `dir` after `tried`
/// candidates were missing.
pub open spec fn candidate(name: Seq<char>, dir: Seq<Seq<char>>, tried: nat) -> Seq<Seq<char>> {
    if tried == 0 {
        direct_candidate(name, dir)
    } else {
        entry_candidate(name, dir)
    }
}

/// The file to try for module `name` in `parent` once `tried` earlier
/// candidates were missing: first `<name>.rs`, then `<name>/mod.rs`.
pub fn get_mod(name: &str, parent: &SrcPath, tried: usize) -> (r: SrcPath)
    requires
        tried <= 1,
    ensures
        r@ == candidate(name@, parent@, tried as nat),
{
    if tried == 0 {
        let file = String::from_str(name).concat(".rs");
        proof {
            reveal_strlit(".rs");
            assert(".rs"@ =~= rs_ext());
        }
        let r = child(parent, file);
        assert(r@ =~= direct_candidate(name@, parent@));
        r
    } else {
        let r = child(&child(parent, String::from_str(name)), String::from_str("mod.rs"));
        proof {
            reveal_strlit("mod.rs");
            assert("mod.rs"@ =~= seq!['m', 'o', 'd', '.', 'r', 's']);
        }
        assert(r@ =~= entry_candidate(name@, parent@));
        r
    }
}

/// Which kind of crate root to start from.
#[derive(Clone, Copy, Debug, PartialEq, Eq)]
pub enum CrateType {
    Lib,
    Bin,
}

impl CrateType {
    /// The root file of a crate whose directory is `parent`:
    /// `src/lib.rs` or `src/main.rs`.
    pub fn base_file(&self, parent: &SrcPath) -> (r: SrcPath)
        ensures
            r@ == parent@.push(seq!['s', 'r', 'c']).push(
                match self {
                    CrateType::Lib => seq!['l', 'i', 'b', '.', 'r', 's'],
                    CrateType::Bin => seq!['m', 'a', 'i', 'n', '.', 'r', 's'],
                },
            ),
    {
        let file_name = match self {
            CrateType::Lib => "lib.rs",
            CrateType::Bin => "main.rs",
        };
        let r = child(&child(parent, String::from_str("src")), String::from_str(file_name));
        proof {
            reveal_strlit("src");
            reveal_strlit("lib.rs");
            reveal_strlit("main.rs");
            assert("src"@ =~= seq!['s', 'r', 'c']);
            assert("lib.rs"@ =~= seq!['l', 'i', 'b', '.', 'r', 's']);
            assert("main.rs"@ =~= seq!['m', 'a', 'i', 'n', '.', 'r', 's']);
        }
        assert(r@ =~= parent@.push(seq!['s', 'r', 'c']).push(file_name@));
        r
    }
}

} // verus!
