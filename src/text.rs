//! Characters, lines and words of a knowledge-base definition.
use vstd::prelude::*;

verus! {

/// The characters of `s`, in order.
pub fn chars_of(s: &str) -> (r: Vec<char>)
    ensures
        r@ == s@,
{
    let n = s.unicode_len();
    let mut r: Vec<char> = Vec::new();
    for i in 0..n
        invariant
            n == s@.len(),
            r@ == s@.subrange(0, i as int),
    {
        r.push(s.get_char(i));
    }
    proof {
        assert(r@ =~= s@);
    }
    r
}

/// Relies on `String::from_iter` over `&char`: the string holds exactly these
/// characters, in order.
#[verifier::external_body]
pub(crate) fn string_of(cs: &[char]) -> (r: String)
    ensures
        r@ == cs@,
{
    String::from_iter(cs)
}

/// The two strings hold the same characters.
pub fn str_eq(a: &str, b: &str) -> (r: bool)
    ensures
        r == (a@ == b@),
{
    let n = a.unicode_len();
    if n != b.unicode_len() {
        return false;
    }
    for i in 0..n
        invariant
            n == a@.len(),
            n == b@.len(),
            forall|k: int| 0 <= k < i ==> a@[k] == b@[k],
    {
        if a.get_char(i) != b.get_char(i) {
            return false;
        }
    }
    proof {
        assert(a@ =~= b@);
    }
    true
}

/// The token holds exactly the characters of `w`.
pub fn is_word(tok: &Vec<char>, w: &str) -> (r: bool)
    ensures
        r == (tok@ == w@),
{
    let n = w.unicode_len();
    if n != tok.len() {
        return false;
    }
    for i in 0..n
        invariant
            n == w@.len(),
            n == tok@.len(),
            forall|k: int| 0 <= k < i ==> tok@[k] == w@[k],
    {
        if tok[i] != w.get_char(i) {
            return false;
        }
    }
    proof {
        assert(tok@ =~= w@);
    }
    true
}

pub open spec fn is_blank(c: char) -> bool {
    c == ' ' || c == '\t' || c == '\r'
}

/// `s` cut at every `sep`, as `str::split` does: `k` separators give `k + 1`
/// pieces, some of them perhaps empty.
pub open spec fn split(s: Seq<char>, sep: char) -> Seq<Seq<char>>
    decreases s.len(),
{
    if s.len() == 0 {
        seq![Seq::<char>::empty()]
    } else {
        let prev = split(s.drop_last(), sep);
        if s.last() == sep {
            prev.push(Seq::<char>::empty())
        } else {
            prev.update(prev.len() - 1, prev.last().push(s.last()))
        }
    }
}

proof fn lemma_split_nonempty(s: Seq<char>, sep: char)
    ensures
        split(s, sep).len() > 0,
    decreases s.len(),
{
    if s.len() > 0 {
        lemma_split_nonempty(s.drop_last(), sep);
    }
}

/// `s` cut at every `sep`.
pub fn split_chars(s: &Vec<char>, sep: char) -> (r: Vec<Vec<char>>)
    ensures
        r@.len() == split(s@, sep).len(),
        forall|i: int| 0 <= i < r@.len() ==> (#[trigger] r@[i])@ == split(s@, sep)[i],
{
    let mut r: Vec<Vec<char>> = Vec::new();
    r.push(Vec::new());
    proof {
        assert(s@.subrange(0, 0) =~= Seq::<char>::empty());
    }
    for i in 0..s.len()
        invariant
            r@.len() == split(s@.subrange(0, i as int), sep).len(),
            forall|k: int| 0 <= k < r@.len() ==> (#[trigger] r@[k])@ == split(s@.subrange(0, i as int), sep)[k],
    {
        let ghost pre = s@.subrange(0, i as int);
        let ghost cur = s@.subrange(0, i as int + 1);
        proof {
            assert(cur.drop_last() =~= pre);
            lemma_split_nonempty(pre, sep);
        }
        let c = s[i];
        if c == sep {
            r.push(Vec::new());
            proof {
                assert forall|k: int| 0 <= k < r@.len() implies (#[trigger] r@[k])@ == split(cur, sep)[k] by {
                    if k == r@.len() - 1 {
                        assert(r@[k]@ =~= Seq::<char>::empty());
                    }
                }
            }
        } else {
            let last = r.len() - 1;
            let mut piece = r.remove(last);
            piece.push(c);
            r.push(piece);
        }
    }
    proof {
        assert(s@.subrange(0, s@.len() as int) =~= s@);
    }
    r
}

/// The lines of `text`, split at each newline.
pub fn split_lines(text: &Vec<char>) -> (lines: Vec<Vec<char>>)
    ensures
        lines@.len() == split(text@, '\n').len(),
        forall|i: int| 0 <= i < lines@.len() ==> (#[trigger] lines@[i])@ == split(text@, '\n')[i],
{
    split_chars(text, '\n')
}

/// The words of `line` from character `from` on: maximal runs of characters
/// that are not blanks, each with the index where it starts.
pub fn words(line: &Vec<char>, from: usize) -> (ws: Vec<(Vec<char>, usize)>)
    ensures
        forall|i: int|
            0 <= i < ws@.len() ==> (#[trigger] ws@[i]).0@.len() > 0 && ws@[i].1 < line@.len()
                && forall|k: int| 0 <= k < ws@[i].0@.len() ==> !is_blank(#[trigger] ws@[i].0@[k]),
{
    let mut ws: Vec<(Vec<char>, usize)> = Vec::new();
    let mut cur: Vec<char> = Vec::new();
    let mut start: usize = 0;
    let mut i: usize = from;
    while i < line.len()
        invariant
            cur@.len() > 0 ==> start < line@.len(),
            forall|k: int| 0 <= k < cur@.len() ==> !is_blank(#[trigger] cur@[k]),
            forall|j: int|
                0 <= j < ws@.len() ==> (#[trigger] ws@[j]).0@.len() > 0 && ws@[j].1 < line@.len()
                    && forall|k: int| 0 <= k < ws@[j].0@.len() ==> !is_blank(#[trigger] ws@[j].0@[k]),
        decreases line@.len() - i,
    {
        let c = line[i];
        if c == ' ' || c == '\t' || c == '\r' {
            if cur.len() > 0 {
                ws.push((cur, start));
                cur = Vec::new();
            }
        } else {
            if cur.len() == 0 {
                start = i;
            }
            cur.push(c);
        }
        i = i + 1;
    }
    if cur.len() > 0 {
        ws.push((cur, start));
    }
    ws
}

/// `line` from `from` on, with the blanks at both ends left out, is the range
/// from `lo` up to `hi`.
pub open spec fn trim_bounds(line: Seq<char>, from: int, lo: int, hi: int) -> bool {
    &&& from <= lo <= hi <= line.len()
    &&& forall|k: int| from <= k < lo ==> is_blank(#[trigger] line[k])
    &&& forall|k: int| hi <= k < line.len() ==> is_blank(#[trigger] line[k])
    &&& lo < hi ==> !is_blank(line[lo]) && !is_blank(line[hi - 1])
    &&& lo == hi ==> hi == line.len()
}

/// The characters of `line` from index `from` on, without blanks at either end.
pub fn trimmed_rest(line: &Vec<char>, from: usize) -> (r: Vec<char>)
    ensures
        from <= line@.len() ==> exists|lo: int, hi: int|
            trim_bounds(line@, from as int, lo, hi) && r@ == line@.subrange(lo, hi),
        from > line@.len() ==> r@.len() == 0,
{
    if from > line.len() {
        return Vec::new();
    }
    let mut lo: usize = from;
    while lo < line.len() && (line[lo] == ' ' || line[lo] == '\t' || line[lo] == '\r')
        invariant
            from <= lo <= line@.len(),
            forall|k: int| from <= k < lo ==> is_blank(#[trigger] line@[k]),
        decreases line@.len() - lo,
    {
        lo = lo + 1;
    }
    let mut hi: usize = line.len();
    while hi > lo && (line[hi - 1] == ' ' || line[hi - 1] == '\t' || line[hi - 1] == '\r')
        invariant
            lo <= hi <= line@.len(),
            forall|k: int| hi <= k < line@.len() ==> is_blank(#[trigger] line@[k]),
        decreases hi,
    {
        hi = hi - 1;
    }
    let r = sub_chars(line, lo, hi);
    proof {
        if lo == hi && hi < line@.len() {
            assert(lo < line@.len() && !is_blank(line@[lo as int]));
            assert(is_blank(line@[hi as int]));
        }
        assert(trim_bounds(line@, from as int, lo as int, hi as int));
    }
    r
}

/// The characters of `line` from `from` up to `to`.
pub fn sub_chars(line: &Vec<char>, from: usize, to: usize) -> (r: Vec<char>)
    requires
        from <= to <= line@.len(),
    ensures
        r@ == line@.subrange(from as int, to as int),
{
    let mut r: Vec<char> = Vec::new();
    let mut k: usize = from;
    while k < to
        invariant
            from <= k <= to <= line@.len(),
            r@ == line@.subrange(from as int, k as int),
        decreases to - k,
    {
        r.push(line[k]);
        k = k + 1;
    }
    r
}

/// The pieces that are not empty, in order.
pub open spec fn nonempty(ps: Seq<Seq<char>>) -> Seq<Seq<char>>
    decreases ps.len(),
{
    if ps.len() == 0 {
        Seq::empty()
    } else if ps.last().len() > 0 {
        nonempty(ps.drop_last()).push(ps.last())
    } else {
        nonempty(ps.drop_last())
    }
}

/// The non-empty pieces, in order.
pub fn nonempty_pieces(ps: &Vec<Vec<char>>) -> (r: Vec<Vec<char>>)
    ensures
        r@.len() == nonempty(ps@.map_values(|p: Vec<char>| p@)).len(),
        forall|i: int| 0 <= i < r@.len() ==> (#[trigger] r@[i])@ == nonempty(ps@.map_values(|p: Vec<char>| p@))[i],
{
    let ghost all = ps@.map_values(|p: Vec<char>| p@);
    let mut r: Vec<Vec<char>> = Vec::new();
    for i in 0..ps.len()
        invariant
            all == ps@.map_values(|p: Vec<char>| p@),
            r@.len() == nonempty(all.subrange(0, i as int)).len(),
            forall|k: int| 0 <= k < r@.len() ==> (#[trigger] r@[k])@ == nonempty(all.subrange(0, i as int))[k],
    {
        proof {
            assert(all.subrange(0, i as int + 1).drop_last() =~= all.subrange(0, i as int));
        }
        if ps[i].len() > 0 {
            r.push(ps[i].clone());
        }
    }
    proof {
        assert(all.subrange(0, ps@.len() as int) =~= all);
    }
    r
}

/// `s` with every blank or comma turned into a space.
pub open spec fn spaced(s: Seq<char>) -> Seq<char> {
    s.map_values(|c: char| if is_blank(c) || c == ',' { ' ' } else { c })
}

/// The items of a list written with blanks or commas between them.
pub fn list_items(v: &Vec<char>) -> (items: Vec<Vec<char>>)
    ensures
        items@.len() == nonempty(split(spaced(v@), ' ')).len(),
        forall|i: int| 0 <= i < items@.len() ==> (#[trigger] items@[i])@ == nonempty(split(spaced(v@), ' '))[i],
{
    let mut w: Vec<char> = Vec::new();
    for i in 0..v.len()
        invariant
            w@ == spaced(v@).subrange(0, i as int),
    {
        let c = v[i];
        if c == ' ' || c == '\t' || c == '\r' || c == ',' {
            w.push(' ');
        } else {
            w.push(c);
        }
        proof {
            assert(w@ =~= spaced(v@).subrange(0, i as int + 1));
        }
    }
    proof {
        assert(w@ =~= spaced(v@));
    }
    let pieces = split_chars(&w, ' ');
    let items = nonempty_pieces(&pieces);
    proof {
        assert(pieces@.map_values(|p: Vec<char>| p@) =~= split(spaced(v@), ' '));
    }
    items
}

} // verus!
