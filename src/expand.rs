use vstd::prelude::*;
use vstd::string::*;

verus! {

/// A bodyless module declaration: its name and the character offset of its
/// closing `;` in the file's own text.
#[derive(Debug, PartialEq, Eq)]
pub struct ModDecl {
    pub name: String,
    pub offset: usize,
}

pub open spec fn decl_view(d: ModDecl) -> (Seq<char>, int) {
    (d.name@, d.offset as int)
}

pub open spec fn decls_view(ds: Seq<ModDecl>) -> Seq<(Seq<char>, int)> {
    ds.map_values(|d: ModDecl| decl_view(d))
}

pub open spec fn offsets(decls: Seq<(Seq<char>, int)>) -> Seq<int> {
    decls.map_values(|d: (Seq<char>, int)| d.1)
}

pub open spec fn texts_view(bodies: Seq<String>) -> Seq<Seq<char>> {
    bodies.map_values(|b: String| b@)
}

/// Each declaration ends at a `;` of `text`, and they stand in strictly
/// increasing order.
pub open spec fn well_placed(text: Seq<char>, decls: Seq<(Seq<char>, int)>) -> bool {
    &&& forall|k: int|
        0 <= k < decls.len() ==> 0 <= #[trigger] decls[k].1 < text.len() && text[decls[k].1]
            == ';'
    &&& forall|k1: int, k2: int|
        0 <= k1 < k2 < decls.len() ==> #[trigger] decls[k1].1 < #[trigger] decls[k2].1
}

/// Same as `well_placed`, on bare offsets.
pub open spec fn ordered_in(text: Seq<char>, offs: Seq<int>) -> bool {
    &&& forall|k: int| 0 <= k < offs.len() ==> 0 <= #[trigger] offs[k] < text.len()
    &&& forall|k1: int, k2: int|
        0 <= k1 < k2 < offs.len() ==> #[trigger] offs[k1] < #[trigger] offs[k2]
}

pub open spec fn open_marker() -> Seq<char> {
    seq![' ', '{', '\n']
}

pub open spec fn close_marker() -> Seq<char> {
    seq!['\n', '}', ' ']
}

/// A module body made into an inline block.
pub open spec fn wrapped(body: Seq<char>) -> Seq<char> {
    open_marker() + body + close_marker()
}

/// Where the untouched text before declaration `i` (or, for `i` past the
/// last one, the tail) begins.
pub open spec fn cursor_of(offs: Seq<int>, i: int) -> int {
    if i <= 0 {
        0
    } else {
        offs[i - 1] + 1
    }
}

/// Where the untouched text before declaration `i` ends.
pub open spec fn end_of(text: Seq<char>, offs: Seq<int>, i: int) -> int {
    if i < offs.len() {
        offs[i]
    } else {
        text.len() as int
    }
}

/// The untouched text between terminator `i - 1` and terminator `i`.
pub open spec fn gap(text: Seq<char>, offs: Seq<int>, i: int) -> Seq<char> {
    text.subrange(cursor_of(offs, i), end_of(text, offs, i))
}

/// `text` from `cursor` on, with the terminators `i..` replaced by their
/// wrapped bodies.
pub open spec fn spliced_from(
    text: Seq<char>,
    offs: Seq<int>,
    bodies: Seq<Seq<char>>,
    i: int,
    cursor: int,
) -> Seq<char>
    decreases offs.len() - i,
{
    if i < 0 || i >= offs.len() {
        text.subrange(cursor, text.len() as int)
    } else {
        text.subrange(cursor, offs[i]) + wrapped(bodies[i]) + spliced_from(
            text,
            offs,
            bodies,
            i + 1,
            offs[i] + 1,
        )
    }
}

/// `text` with the terminator at each offset replaced by the matching body,
/// wrapped in braces.
pub open spec fn spliced(text: Seq<char>, offs: Seq<int>, bodies: Seq<Seq<char>>) -> Seq<char> {
    spliced_from(text, offs, bodies, 0, 0)
}

/// The output up to the untouched text before declaration `i`.
pub open spec fn spliced_head(
    text: Seq<char>,
    offs: Seq<int>,
    bodies: Seq<Seq<char>>,
    i: int,
) -> Seq<char>
    decreases i,
{
    if i <= 0 {
        Seq::empty()
    } else {
        spliced_head(text, offs, bodies, i - 1) + gap(text, offs, i - 1) + wrapped(bodies[i - 1])
    }
}

/// Replaces the terminator of each declaration of `file` by the matching
/// body, wrapped in braces, and keeps every other character.
pub fn expand_with(file: &str, decls: &Vec<ModDecl>, bodies: &Vec<String>) -> (r: String)
    requires
        decls@.len() == bodies@.len(),
        well_placed(file@, decls_view(decls@)),
    ensures
        r@ == spliced(file@, offsets(decls_view(decls@)), texts_view(bodies@)),
{
    let ghost text = file@;
    let ghost offs = offsets(decls_view(decls@));
    let ghost bs = texts_view(bodies@);
    let len = file.unicode_len();
    let mut out = String::new();
    let mut cursor: usize = 0;
    let mut i: usize = 0;
    while i < decls.len()
        invariant
            decls@.len() == bodies@.len(),
            offs == offsets(decls_view(decls@)),
            bs == texts_view(bodies@),
            well_placed(text, decls_view(decls@)),
            text == file@,
            0 <= i <= decls@.len(),
            cursor <= text.len() == len,
            cursor == cursor_of(offs, i as int),
            out@ + spliced_from(text, offs, bs, i as int, cursor as int) == spliced(
                text,
                offs,
                bs,
            ),
        decreases decls@.len() - i,
    {
        let off = decls[i].offset;
        assert(decls_view(decls@)[i as int].1 == off);
        if i > 0 {
            assert(decls_view(decls@)[i - 1].1 < decls_view(decls@)[i as int].1);
        }
        let piece = file.substring_char(cursor, off);
        let ghost before = out@;
        out.append(piece);
        out.append(" {\n");
        out.append(bodies[i].as_str());
        out.append("\n} ");
        proof {
            reveal_strlit(" {\n");
            reveal_strlit("\n} ");
            assert(out@ == before + text.subrange(cursor as int, off as int) + wrapped(bs[i as int]));
            assert(out@ + spliced_from(text, offs, bs, i + 1, off + 1) =~= before + spliced_from(text, offs, bs, i as int, cursor as int));
        }
        cursor = off + 1;
        i = i + 1;
    }
    let tail = file.substring_char(cursor, len);
    out.append(tail);
    out
}

/// Where the wrapped body of declaration `k` begins in the output.
pub open spec fn wrapped_start(
    text: Seq<char>,
    offs: Seq<int>,
    bodies: Seq<Seq<char>>,
    k: int,
) -> int {
    (spliced_head(text, offs, bodies, k).len() + gap(text, offs, k).len()) as int
}

proof fn lemma_split_at(text: Seq<char>, offs: Seq<int>, bodies: Seq<Seq<char>>, i: int)
    requires
        ordered_in(text, offs),
        0 <= i <= offs.len(),
    ensures
        spliced(text, offs, bodies) == spliced_head(text, offs, bodies, i) + spliced_from(
            text,
            offs,
            bodies,
            i,
            cursor_of(offs, i),
        ),
    decreases i,
{
    if i == 0 {
        assert(spliced_head(text, offs, bodies, 0) + spliced(text, offs, bodies) =~= spliced(
            text,
            offs,
            bodies,
        ));
    } else {
        lemma_split_at(text, offs, bodies, i - 1);
        assert(spliced_head(text, offs, bodies, i - 1) + spliced_from(
            text,
            offs,
            bodies,
            i - 1,
            cursor_of(offs, i - 1),
        ) =~= spliced_head(text, offs, bodies, i) + spliced_from(
            text,
            offs,
            bodies,
            i,
            cursor_of(offs, i),
        ));
    }
}

proof fn lemma_gap_bounds(text: Seq<char>, offs: Seq<int>, i: int)
    requires
        ordered_in(text, offs),
        0 <= i <= offs.len(),
    ensures
        0 <= cursor_of(offs, i) <= end_of(text, offs, i) <= text.len(),
{
    if i > 0 {
        assert(0 <= offs[i - 1]);
        if i < offs.len() {
            assert(offs[i - 1] < offs[i]);
        }
    }
}

proof fn lemma_head_grows(text: Seq<char>, offs: Seq<int>, bodies: Seq<Seq<char>>, i: int, j: int)
    requires
        0 <= i <= j,
    ensures
        spliced_head(text, offs, bodies, i).len() <= spliced_head(text, offs, bodies, j).len(),
    decreases j - i,
{
    if i < j {
        lemma_head_grows(text, offs, bodies, i, j - 1);
    }
}

/// With no declarations to replace, the text comes out unchanged.
pub proof fn lemma_unchanged_without_decls(text: Seq<char>, bodies: Seq<Seq<char>>)
    ensures
        spliced(text, Seq::empty(), bodies) == text,
{
    assert(spliced(text, Seq::empty(), bodies) =~= text);
}

/// Every stretch of text between two terminators (and before the first and
/// after the last) is copied unchanged, each right after the output of the
/// stretches and declarations before it.
pub proof fn lemma_gaps_kept(text: Seq<char>, offs: Seq<int>, bodies: Seq<Seq<char>>, i: int)
    requires
        ordered_in(text, offs),
        bodies.len() == offs.len(),
        0 <= i <= offs.len(),
    ensures
        ({
            let out = spliced(text, offs, bodies);
            let h = spliced_head(text, offs, bodies, i).len() as int;
            &&& h + gap(text, offs, i).len() <= out.len()
            &&& out.subrange(h, h + gap(text, offs, i).len()) == gap(text, offs, i)
            &&& gap(text, offs, i) == text.subrange(cursor_of(offs, i), end_of(text, offs, i))
            &&& i < offs.len() ==> spliced_head(text, offs, bodies, i + 1).len() == h + gap(
                text,
                offs,
                i,
            ).len() + wrapped(bodies[i]).len()
        }),
{
    lemma_split_at(text, offs, bodies, i);
    lemma_gap_bounds(text, offs, i);
    let out = spliced(text, offs, bodies);
    let head = spliced_head(text, offs, bodies, i);
    let g = gap(text, offs, i);
    let rest = spliced_from(text, offs, bodies, i, cursor_of(offs, i));
    assert(rest.subrange(0, g.len() as int) =~= g);
    assert(out.subrange(head.len() as int, (head.len() + g.len()) as int) =~= rest.subrange(
        0,
        g.len() as int,
    ));
}

/// For declarations `k1 < k2`, the wrapped body of the first ends before
/// that of the second begins; for neighbours, exactly the unexpanded text
/// between their terminators stands between the two.
pub proof fn lemma_order_kept(
    text: Seq<char>,
    offs: Seq<int>,
    bodies: Seq<Seq<char>>,
    k1: int,
    k2: int,
)
    requires
        ordered_in(text, offs),
        bodies.len() == offs.len(),
        0 <= k1 < k2 < offs.len(),
    ensures
        ({
            let out = spliced(text, offs, bodies);
            let s1 = wrapped_start(text, offs, bodies, k1);
            let e1 = s1 + wrapped(bodies[k1]).len();
            let s2 = wrapped_start(text, offs, bodies, k2);
            &&& out.subrange(s1, e1) == wrapped(bodies[k1])
            &&& out.subrange(s2, s2 + wrapped(bodies[k2]).len()) == wrapped(bodies[k2])
            &&& e1 <= s2
            &&& k2 == k1 + 1 ==> out.subrange(e1, s2) == text.subrange(offs[k1] + 1, offs[k2])
        }),
{
    let out = spliced(text, offs, bodies);
    assert forall|k: int| 0 <= k < offs.len() implies out.subrange(
        wrapped_start(text, offs, bodies, k),
        wrapped_start(text, offs, bodies, k) + wrapped(bodies[k]).len(),
    ) == wrapped(bodies[k]) by {
        lemma_split_at(text, offs, bodies, k);
        lemma_gap_bounds(text, offs, k);
        let head = spliced_head(text, offs, bodies, k);
        let g = gap(text, offs, k);
        let rest = spliced_from(text, offs, bodies, k, cursor_of(offs, k));
        assert(rest == g + wrapped(bodies[k]) + spliced_from(text, offs, bodies, k + 1, offs[k] + 1));
        assert(out.subrange((head.len() + g.len()) as int, (head.len() + g.len() + wrapped(bodies[k]).len()) as int)
            =~= wrapped(bodies[k]));
    }
    lemma_gaps_kept(text, offs, bodies, k1);
    lemma_gaps_kept(text, offs, bodies, k2);
    lemma_head_grows(text, offs, bodies, k1 + 1, k2);
    if k2 == k1 + 1 {
        lemma_gaps_kept(text, offs, bodies, k2);
    }
}

} // verus!
