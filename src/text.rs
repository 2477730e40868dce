//! Splitting text into lines and whitespace-separated words.
use vstd::prelude::*;

verus! {

/// Whether `c` has the Unicode `White_Space` property, the set that
/// `char::is_whitespace`, `str::trim` and `str::split_whitespace` use.
pub open spec fn is_space(c: char) -> bool {
    let u = c as u32;
    (0x9 <= u && u <= 0xD) || u == 0x20 || u == 0x85 || u == 0xA0 || u == 0x1680 || (0x2000 <= u
        && u <= 0x200A) || u == 0x2028 || u == 0x2029 || u == 0x202F || u == 0x205F || u == 0x3000
}

/// Whether `c` ends a line.
pub open spec fn is_line_break(c: char) -> bool {
    c == '\n'
}

/// The pieces of `s` between separators, in order: one more piece than
/// there are separators, and empty pieces kept.
pub open spec fn pieces(s: Seq<char>, sep: spec_fn(char) -> bool) -> Seq<Seq<char>>
    decreases s.len(),
{
    if s.len() == 0 {
        seq![Seq::empty()]
    } else {
        let before = pieces(s.drop_last(), sep);
        if sep(s.last()) {
            before.push(Seq::empty())
        } else {
            before.update(before.len() - 1, before.last().push(s.last()))
        }
    }
}

/// The text between line breaks. A final empty piece, after a closing line
/// break, is an empty line here; `\r` before a break is whitespace.
pub open spec fn line_pieces(s: Seq<char>) -> Seq<Seq<char>> {
    pieces(s, |c: char| is_line_break(c))
}

/// The text between whitespace characters, empty pieces included.
pub open spec fn space_pieces(s: Seq<char>) -> Seq<Seq<char>> {
    pieces(s, |c: char| is_space(c))
}

/// The non-empty pieces of `ws`.
pub open spec fn nonblank(ws: Seq<Seq<char>>) -> Seq<Seq<char>> {
    ws.filter(|w: Seq<char>| w.len() > 0)
}

/// The whitespace-separated words of `s`.
pub open spec fn words_of(s: Seq<char>) -> Seq<Seq<char>> {
    nonblank(space_pieces(s))
}

/// `pieces` always has at least one piece, and has one more after each
/// character: a new empty piece after a separator, a longer last piece
/// after anything else.
pub proof fn lemma_pieces_step(s: Seq<char>, c: char, sep: spec_fn(char) -> bool)
    ensures
        pieces(s, sep).len() >= 1,
        pieces(s.push(c), sep) == if sep(c) {
            pieces(s, sep).push(Seq::empty())
        } else {
            pieces(s, sep).update(pieces(s, sep).len() - 1, pieces(s, sep).last().push(c))
        },
    decreases s.len(),
{
    if s.len() > 0 {
        lemma_pieces_step(s.drop_last(), s.last(), sep);
    }
    assert(s.push(c).drop_last() =~= s);
}

/// Appending text without separators lengthens the last piece only.
pub proof fn lemma_pieces_append(x: Seq<char>, y: Seq<char>, sep: spec_fn(char) -> bool)
    requires
        forall|k: int| 0 <= k < y.len() ==> !sep(y[k]),
    ensures
        pieces(x, sep).len() >= 1,
        pieces(x + y, sep) == pieces(x, sep).update(
            pieces(x, sep).len() - 1,
            pieces(x, sep).last() + y,
        ),
    decreases y.len(),
{
    let p = pieces(x, sep);
    lemma_pieces_step(x, ' ', sep);
    if y.len() == 0 {
        assert(x + y =~= x);
        assert(p.last() + y =~= p.last());
        assert(p.update(p.len() - 1, p.last()) =~= p);
    } else {
        let y0 = y.drop_last();
        lemma_pieces_append(x, y0, sep);
        assert(x + y =~= (x + y0).push(y.last()));
        lemma_pieces_step(x + y0, y.last(), sep);
        assert(p.last() + y =~= (p.last() + y0).push(y.last()));
        assert(pieces(x + y, sep) =~= p.update(p.len() - 1, p.last() + y));
    }
}

/// The non-empty pieces of a sequence with one more piece.
pub proof fn lemma_nonblank_push(ws: Seq<Seq<char>>, w: Seq<char>)
    ensures
        nonblank(ws.push(w)) == if w.len() > 0 {
            nonblank(ws).push(w)
        } else {
            nonblank(ws)
        },
{
    reveal(Seq::filter);
    assert(ws.push(w).drop_last() =~= ws);
}

/// The characters of `s`, in order.
pub fn chars_of(s: &str) -> (r: Vec<char>)
    ensures
        r@ == s@,
{
    let mut out: Vec<char> = Vec::new();
    for c in it: s.chars()
        invariant
            out@ == it.seq().take(it.index() as int),
    {
        out.push(c);
    }
    proof {
        broadcast use vstd::string::group_string_axioms;

    }
    assert(out@ =~= s@);
    out
}

/// Whether `c` is whitespace, as `is_space` states.
pub fn is_space_char(c: char) -> (r: bool)
    ensures
        r == is_space(c),
{
    let u = c as u32;
    (0x9 <= u && u <= 0xD) || u == 0x20 || u == 0x85 || u == 0xA0 || u == 0x1680 || (0x2000 <= u
        && u <= 0x200A) || u == 0x2028 || u == 0x2029 || u == 0x202F || u == 0x205F || u == 0x3000
}

/// Relies on `String::push`: the string gains `c` at its end.
#[verifier::external_body]
pub(crate) fn push_char(s: &mut String, c: char)
    ensures
        final(s)@ == old(s)@.push(c),
{
    s.push(c);
}

} // verus!
