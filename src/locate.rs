use vstd::prelude::*;
use crate::expand::{decl_view, decls_view, well_placed, ModDecl};
use crate::outline::{item_view, outline_of, parse_outline, ItemView, TopItem};

verus! {

/// Number of line feeds in `s`.
pub open spec fn count_newlines(s: Seq<char>) -> nat
    decreases s.len(),
{
    if s.len() == 0 {
        0
    } else {
        count_newlines(s.drop_last()) + if s.last() == '\n' {
            1nat
        } else {
            0nat
        }
    }
}

/// `start` is where line `line` (counted from 1) of `text` begins.
pub open spec fn is_line_start(text: Seq<char>, start: int, line: nat) -> bool {
    &&& 0 <= start <= text.len()
    &&& line >= 1
    &&& count_newlines(text.take(start)) == line - 1
    &&& (start == 0 || text[start - 1] == '\n')
}

/// The character at `offset` stands on line `line`, `col` characters after
/// the start of that line.
pub open spec fn is_line_col(text: Seq<char>, offset: int, line: nat, col: nat) -> bool {
    &&& is_line_start(text, offset - col, line)
    &&& offset < text.len()
    &&& forall|j: int| offset - col <= j < offset ==> text[j] != '\n'
}

/// The character offset of the position (`line`, `col`), if `text` has a
/// character there.
pub open spec fn offset_at(text: Seq<char>, line: nat, col: nat) -> Option<int> {
    if exists|o: int| is_line_col(text, o, line, col) {
        Some(choose|o: int| is_line_col(text, o, line, col))
    } else {
        None
    }
}

/// The bodyless module declarations among `items`, in source order, as
/// name, line and column of the terminator.
pub open spec fn bodyless(items: Seq<ItemView>) -> Seq<(Seq<char>, nat, nat)>
    decreases items.len(),
{
    if items.len() == 0 {
        Seq::empty()
    } else {
        let rest = bodyless(items.drop_last());
        match items.last() {
            (Some(name), Some((line, col))) => rest.push((name, line as nat, col as nat)),
            _ => rest,
        }
    }
}

/// Every position of `marks` names a character of `text`.
pub open spec fn all_located(text: Seq<char>, marks: Seq<(Seq<char>, nat, nat)>) -> bool {
    forall|k: int| 0 <= k < marks.len() ==> (#[trigger] offset_at(text, marks[k].1, marks[k].2)) is Some
}

/// The declarations of `marks` with their positions turned into offsets.
pub open spec fn placed(text: Seq<char>, marks: Seq<(Seq<char>, nat, nat)>) -> Seq<(Seq<char>, int)> {
    marks.map_values(|m: (Seq<char>, nat, nat)| (m.0, offset_at(text, m.1, m.2)->0))
}

proof fn lemma_count_step(text: Seq<char>, j: int)
    requires
        0 <= j < text.len(),
    ensures
        count_newlines(text.take(j + 1)) == count_newlines(text.take(j)) + if text[j] == '\n' {
            1nat
        } else {
            0nat
        },
{
    assert(text.take(j + 1).drop_last() =~= text.take(j));
}

proof fn lemma_count_mono(text: Seq<char>, i: int, j: int)
    requires
        0 <= i <= j <= text.len(),
    ensures
        count_newlines(text.take(i)) <= count_newlines(text.take(j)),
    decreases j - i,
{
    if i < j {
        lemma_count_mono(text, i, j - 1);
        lemma_count_step(text, j - 1);
    }
}

proof fn lemma_line_start_unique(text: Seq<char>, s1: int, s2: int, line: nat)
    requires
        is_line_start(text, s1, line),
        is_line_start(text, s2, line),
    ensures
        s1 == s2,
{
    if s1 < s2 {
        lemma_count_mono(text, s1, s2 - 1);
        lemma_count_step(text, s2 - 1);
    } else if s2 < s1 {
        lemma_count_mono(text, s2, s1 - 1);
        lemma_count_step(text, s1 - 1);
    }
}

/// A line and column name at most one offset.
pub proof fn lemma_offset_unique(text: Seq<char>, o1: int, o2: int, line: nat, col: nat)
    requires
        is_line_col(text, o1, line, col),
        is_line_col(text, o2, line, col),
    ensures
        o1 == o2,
{
    lemma_line_start_unique(text, o1 - col, o2 - col, line);
}

/// The characters of `s`, one by one.
pub fn chars_of(s: &str) -> (r: Vec<char>)
    ensures
        r@ == s@,
{
    broadcast use vstd::string::group_string_axioms;
    let mut v: Vec<char> = Vec::new();
    for c in it: s.chars()
        invariant
            v@ == it.seq().take(it.index() as int),
    {
        v.push(c);
    }
    v
}

/// The character offset of line `line` (counted from 1), column `col`
/// (counted from 0, in characters) of `text`.
pub fn line_col_offset(text: &Vec<char>, line: usize, col: usize) -> (r: Option<usize>)
    ensures
        r matches Some(o) ==> offset_at(text@, line as nat, col as nat) == Some(o as int),
        r is None ==> offset_at(text@, line as nat, col as nat) is None,
{
    let n = text.len();
    if line == 0 {
        return None;
    }
    let mut i: usize = 0;
    let mut nl: usize = 0;
    while i < n && nl < line - 1
        invariant
            0 <= i <= n == text@.len(),
            line >= 1,
            nl <= line - 1,
            count_newlines(text@.take(i as int)) == nl,
            line == 1 ==> i == 0,
            nl == line - 1 && nl > 0 ==> i > 0 && text@[i - 1] == '\n',
        decreases n - i,
    {
        proof {
            lemma_count_step(text@, i as int);
        }
        if text[i] == '\n' {
            nl = nl + 1;
        }
        i = i + 1;
    }
    if nl < line - 1 {
        proof {
            assert forall|o: int| !is_line_col(text@, o, line as nat, col as nat) by {
                if is_line_col(text@, o, line as nat, col as nat) {
                    lemma_count_mono(text@, o - col, n as int);
                    assert(text@.take(n as int) =~= text@);
                }
            }
        }
        return None;
    }
    let start = i;
    assert(is_line_start(text@, start as int, line as nat));
    while i < n && i - start < col
        invariant
            start <= i <= n == text@.len(),
            i - start <= col,
            is_line_start(text@, start as int, line as nat),
            forall|j: int| start <= j < i ==> text@[j] != '\n',
        decreases n - i,
    {
        if text[i] == '\n' {
            proof {
                assert forall|o: int| !is_line_col(text@, o, line as nat, col as nat) by {
                    if is_line_col(text@, o, line as nat, col as nat) {
                        lemma_line_start_unique(text@, o - col, start as int, line as nat);
                    }
                }
            }
            return None;
        }
        i = i + 1;
    }
    if i < n && i - start == col {
        assert(is_line_col(text@, i as int, line as nat, col as nat));
        proof {
            assert forall|o: int| is_line_col(text@, o, line as nat, col as nat) implies o == i by {
                lemma_offset_unique(text@, o, i as int, line as nat, col as nat);
            }
        }
        Some(i)
    } else {
        proof {
            assert forall|o: int| !is_line_col(text@, o, line as nat, col as nat) by {
                if is_line_col(text@, o, line as nat, col as nat) {
                    lemma_line_start_unique(text@, o - col, start as int, line as nat);
                }
            }
        }
        None
    }
}

/// Why the bodyless module declarations of a text could not be found.
#[derive(Debug, PartialEq, Eq)]
pub enum DeclError {
    /// The text is not a valid source file; the parser's message.
    Syntax(String),
    /// The parser reported a terminator that is not a `;` of the text, or
    /// terminators out of order.
    Position,
}

proof fn lemma_bodyless_prefix(s: Seq<ItemView>, j: int)
    requires
        0 <= j <= s.len(),
    ensures
        bodyless(s.take(j)).len() <= bodyless(s).len(),
        bodyless(s.take(j)) == bodyless(s).take(bodyless(s.take(j)).len() as int),
    decreases s.len(),
{
    if j == s.len() {
        assert(s.take(j) =~= s);
        assert(bodyless(s).take(bodyless(s).len() as int) =~= bodyless(s));
    } else {
        let d = s.drop_last();
        lemma_bodyless_prefix(d, j);
        assert(d.take(j) =~= s.take(j));
        let bd = bodyless(d);
        let k = bodyless(s.take(j)).len() as int;
        match s.last() {
            (Some(name), Some((line, col))) => {
                assert(bd.push((name, line as nat, col as nat)).take(k) =~= bd.take(k));
            },
            _ => {},
        }
    }
}

proof fn lemma_bodyless_step(s: Seq<ItemView>, i: int)
    requires
        0 <= i < s.len(),
    ensures
        bodyless(s.take(i + 1)) == match s[i] {
            (Some(name), Some((line, col))) => bodyless(s.take(i)).push(
                (name, line as nat, col as nat),
            ),
            _ => bodyless(s.take(i)),
        },
{
    assert(s.take(i + 1).drop_last() =~= s.take(i));
}

/// The bodyless module declarations of `items`, with their terminators
/// located in `text`, in source order.
pub fn locate_decls(text: &Vec<char>, items: &Vec<TopItem>) -> (r: Option<Vec<ModDecl>>)
    ensures
        ({
            let marks = bodyless(items@.map_values(|i: TopItem| item_view(i)));
            &&& r is Some <==> all_located(text@, marks) && well_placed(text@, placed(text@, marks))
            &&& r matches Some(ds) ==> decls_view(ds@) == placed(text@, marks)
        }),
{
    let ghost iv = items@.map_values(|i: TopItem| item_view(i));
    let ghost full = bodyless(iv);
    let mut ds: Vec<ModDecl> = Vec::new();
    let mut i: usize = 0;
    while i < items.len()
        invariant
            0 <= i <= items@.len() == iv.len(),
            iv == items@.map_values(|i: TopItem| item_view(i)),
            full == bodyless(iv),
            all_located(text@, bodyless(iv.take(i as int))),
            decls_view(ds@) == placed(text@, bodyless(iv.take(i as int))),
            well_placed(text@, decls_view(ds@)),
        decreases items@.len() - i,
    {
        proof {
            lemma_bodyless_step(iv, i as int);
            lemma_bodyless_prefix(iv, i as int + 1);
            lemma_bodyless_prefix(iv, i as int);
        }
        let ghost marks = bodyless(iv.take(i as int));
        assert(iv[i as int] == item_view(items@[i as int]));
        if let (Some(name), Some((line, col))) = (&items[i].module, items[i].terminator) {
            let ghost m = (name@, line as nat, col as nat);
            assert(bodyless(iv.take(i + 1)) == marks.push(m));
            assert(bodyless(iv.take(i + 1)) == full.take(marks.len() as int + 1));
            assert(full.take(marks.len() as int + 1)[marks.len() as int] == m);
            assert(full[marks.len() as int] == m);
            let o = match line_col_offset(text, line, col) {
                Some(o) => o,
                None => {
                    assert(offset_at(text@, full[marks.len() as int].1, full[marks.len() as int].2) is None);
                    assert(!all_located(text@, full));
                    return None;
                },
            };
            let ok = text[o] == ';' && (ds.len() == 0 || ds[ds.len() - 1].offset < o);
            assert(placed(text@, marks.push(m)) =~= placed(text@, marks).push((name@, o as int)));
            if !ok {
                proof {
                    let k = marks.len() as int;
                    assert(full.take(k) == marks);
                    if all_located(text@, full) && well_placed(text@, placed(text@, full)) {
                        let p = placed(text@, full);
                        assert(offset_at(text@, full[k].1, full[k].2) == Some(o as int));
                        assert(p[k] == (name@, o as int));
                        assert(0 <= p[k].1 < text@.len() && text@[p[k].1] == ';');
                        if k > 0 {
                            assert(full[k - 1] == marks[k - 1]);
                            assert(decls_view(ds@)[k - 1] == placed(text@, marks)[k - 1]);
                            assert(p[k - 1].1 == ds@[k - 1].offset);
                            assert(p[k - 1].1 < p[k].1);
                        }
                        assert(false);
                    }
                }
                return None;
            }
            let ghost before = decls_view(ds@);
            ds.push(ModDecl { name: name.clone(), offset: o });
            assert(decls_view(ds@) =~= before.push((name@, o as int)));
            assert(decls_view(ds@) =~= placed(text@, marks.push(m)));
            assert forall|k1: int, k2: int|
                0 <= k1 < k2 < decls_view(ds@).len() implies #[trigger] decls_view(ds@)[k1].1
                < #[trigger] decls_view(ds@)[k2].1 by {
                if k2 == before.len() && k1 < before.len() - 1 {
                    assert(before[k1].1 < before[before.len() - 1].1);
                }
            }
        } else {
            assert(bodyless(iv.take(i + 1)) == marks);
        }
        i = i + 1;
    }
    assert(iv.take(i as int) =~= iv);
    Some(ds)
}

/// 1 when `text` starts with a byte-order mark, else 0.
pub open spec fn bom_len(text: Seq<char>) -> int {
    if text.len() > 0 && text[0] == '\u{feff}' {
        1
    } else {
        0
    }
}

/// The text that the parser reads: `text` without a leading byte-order mark.
pub open spec fn after_bom(text: Seq<char>) -> Seq<char> {
    text.skip(bom_len(text))
}

/// Declarations with their offsets moved by `by`.
pub open spec fn shifted(decls: Seq<(Seq<char>, int)>, by: int) -> Seq<(Seq<char>, int)> {
    decls.map_values(|d: (Seq<char>, int)| (d.0, d.1 + by))
}

/// The parser's positions for the bodyless declarations of `items` name
/// `;` characters of the text it read, in increasing order.
pub open spec fn locatable(text: Seq<char>, items: Seq<ItemView>) -> bool {
    &&& all_located(after_bom(text), bodyless(items))
    &&& well_placed(after_bom(text), placed(after_bom(text), bodyless(items)))
}

/// The bodyless declarations of `items` with offsets into the whole of
/// `text`, a leading byte-order mark included.
pub open spec fn located_decls(text: Seq<char>, items: Seq<ItemView>) -> Seq<(Seq<char>, int)> {
    shifted(placed(after_bom(text), bodyless(items)), bom_len(text))
}

fn shift_by_one(ds: Vec<ModDecl>, body: Ghost<Seq<char>>, text: Ghost<Seq<char>>) -> (r: Vec<ModDecl>)
    requires
        well_placed(body@, decls_view(ds@)),
        text@.len() == body@.len() + 1,
        text@.len() <= usize::MAX,
        text@.skip(1) == body@,
    ensures
        decls_view(r@) == shifted(decls_view(ds@), 1),
        well_placed(text@, decls_view(r@)),
{
    let mut r: Vec<ModDecl> = Vec::new();
    let mut i: usize = 0;
    while i < ds.len()
        invariant
            i <= ds@.len(),
            well_placed(body@, decls_view(ds@)),
            text@.len() == body@.len() + 1,
            text@.len() <= usize::MAX,
            text@.skip(1) == body@,
            decls_view(r@) == shifted(decls_view(ds@), 1).take(i as int),
        decreases ds@.len() - i,
    {
        assert(decls_view(ds@)[i as int].1 < body@.len());
        let d = ModDecl { name: ds[i].name.clone(), offset: ds[i].offset + 1 };
        let ghost before = r@;
        r.push(d);
        assert(decls_view(r@) =~= shifted(decls_view(ds@), 1).take(i + 1)) by {
            assert(decls_view(r@) =~= decls_view(before).push(decl_view(d)));
        }
        i = i + 1;
    }
    assert(shifted(decls_view(ds@), 1).take(i as int) =~= shifted(decls_view(ds@), 1));
    assert forall|k: int| 0 <= k < decls_view(r@).len() implies 0 <= #[trigger] decls_view(r@)[k].1
        < text@.len() && text@[decls_view(r@)[k].1] == ';' by {
        assert(text@[decls_view(r@)[k].1] == body@[decls_view(ds@)[k].1]);
    }
    assert forall|k1: int, k2: int| 0 <= k1 < k2 < decls_view(r@).len() implies #[trigger] decls_view(
        r@,
    )[k1].1 < #[trigger] decls_view(r@)[k2].1 by {
        assert(decls_view(ds@)[k1].1 < decls_view(ds@)[k2].1);
    }
    r
}

/// Finds the bodyless module declarations of a source text, in source
/// order, with the offsets of their terminators in the whole text. The
/// parser skips a leading byte-order mark, so its positions are taken in
/// the text after it.
pub fn mod_declarations(file: &str) -> (r: Result<Vec<ModDecl>, DeclError>)
    ensures
        outline_of(file@) is None ==> r is Err && r->Err_0 is Syntax,
        outline_of(file@) matches Some(items) ==> {
            &&& r is Ok <==> locatable(file@, items)
            &&& r matches Ok(ds) ==> decls_view(ds@) == located_decls(file@, items)
                && well_placed(file@, decls_view(ds@))
            &&& r is Err ==> r->Err_0 is Position
        },
{
    match parse_outline(file) {
        Err(e) => Err(DeclError::Syntax(e)),
        Ok(items) => {
            let text = chars_of(file);
            if text.len() > 0 && text[0] == '\u{feff}' {
                let mut body = chars_of(file);
                body.remove(0);
                assert(body@ =~= after_bom(file@));
                match locate_decls(&body, &items) {
                    Some(ds) => Ok(shift_by_one(ds, Ghost(body@), Ghost(file@))),
                    None => Err(DeclError::Position),
                }
            } else {
                assert(after_bom(file@) =~= file@);
                match locate_decls(&text, &items) {
                    Some(ds) => {
                        assert(shifted(decls_view(ds@), 0) =~= decls_view(ds@));
                        Ok(ds)
                    },
                    None => Err(DeclError::Position),
                }
            }
        },
    }
}

} // verus!
