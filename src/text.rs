//! Character-level text model: splitting on a separator, joining, lines.
use vstd::prelude::*;
use vstd::std_specs::iter::IteratorSpec;

verus! {

broadcast use vstd::string::group_string_axioms;

/// Splits `s` at every occurrence of `sep`; always yields at least one piece.
pub open spec fn split_spec(s: Seq<char>, sep: char) -> Seq<Seq<char>>
    decreases s.len(),
{
    if s.len() == 0 {
        seq![Seq::<char>::empty()]
    } else {
        let prev = split_spec(s.drop_last(), sep);
        if s.last() == sep {
            prev.push(Seq::<char>::empty())
        } else {
            prev.update(prev.len() - 1, prev.last().push(s.last()))
        }
    }
}

pub proof fn lemma_split_nonempty(s: Seq<char>, sep: char)
    ensures
        split_spec(s, sep).len() >= 1,
    decreases s.len(),
{
    if s.len() > 0 {
        lemma_split_nonempty(s.drop_last(), sep);
    }
}

/// Relies on `String::push`: the character is appended at the end.
pub assume_specification[ String::push ](s: &mut String, ch: char)
    ensures
        final(s)@ == old(s)@.push(ch),
;

/// The characters of `s`, in order.
pub fn chars_of(s: &str) -> (r: Vec<char>)
    ensures
        r@ == s@,
{
    let mut r: Vec<char> = Vec::new();
    let it = s.chars();
    for c in iter: it
        invariant
            iter.seq() == s@,
            r@ == iter.seq().take(iter.index() as int),
    {
        r.push(c);
    }
    proof {
        assert(r@ =~= s@);
    }
    r
}

/// The string made of the characters `v[lo..hi]`.
pub fn string_of(v: &Vec<char>, lo: usize, hi: usize) -> (r: String)
    requires
        lo <= hi <= v.len(),
    ensures
        r@ == v@.subrange(lo as int, hi as int),
{
    let mut r = String::new();
    let mut i: usize = lo;
    while i < hi
        invariant
            lo <= i <= hi <= v.len(),
            r@ == v@.subrange(lo as int, i as int),
        decreases hi - i,
    {
        r.push(v[i]);
        proof {
            assert(r@ =~= v@.subrange(lo as int, i + 1));
        }
        i = i + 1;
    }
    r
}

/// The pieces of `s` between occurrences of `sep`.
pub fn split_on(s: &Vec<char>, sep: char) -> (r: Vec<String>)
    ensures
        r@.map_values(|x: String| x@) == split_spec(s@, sep),
{
    let mut r: Vec<String> = Vec::new();
    let mut start: usize = 0;
    let mut i: usize = 0;
    proof {
        assert(r@.map_values(|x: String| x@) =~= Seq::<Seq<char>>::empty());
        assert(s@.take(0) =~= Seq::<char>::empty());
        assert(s@.subrange(0, 0) =~= Seq::<char>::empty());
    }
    while i < s.len()
        invariant
            start <= i <= s.len(),
            r@.map_values(|x: String| x@).push(s@.subrange(start as int, i as int))
                == split_spec(s@.take(i as int), sep),
        decreases s.len() - i,
    {
        let ghost prev = r@.map_values(|x: String| x@).push(s@.subrange(start as int, i as int));
        assert(s@.take(i + 1).drop_last() =~= s@.take(i as int));
        if s[i] == sep {
            let ghost old_r = r@;
            let piece = string_of(s, start, i);
            r.push(piece);
            start = i + 1;
            proof {
                assert(r@.map_values(|x: String| x@) =~= old_r.map_values(|x: String| x@).push(piece@));
                assert(s@.subrange(start as int, (i + 1) as int) =~= Seq::<char>::empty());
                assert(r@.map_values(|x: String| x@).push(s@.subrange(start as int, (i + 1) as int))
                    =~= prev.push(Seq::<char>::empty()));
            }
        } else {
            proof {
                assert(s@.subrange(start as int, i + 1) =~= s@.subrange(start as int, i as int).push(s@[i as int]));
                assert(r@.map_values(|x: String| x@).push(s@.subrange(start as int, (i + 1) as int))
                    =~= prev.update(prev.len() - 1, prev.last().push(s@[i as int])));
            }
        }
        i = i + 1;
    }
    let ghost before = r@;
    let last = string_of(s, start, s.len());
    r.push(last);
    proof {
        assert(r@.map_values(|x: String| x@) =~= before.map_values(|x: String| x@).push(s@.subrange(start as int, s.len() as int)));
    }
    proof {
        assert(s@.take(s.len() as int) =~= s@);
    }
    r
}

} // verus!

verus! {

/// Unicode `White_Space`, the set that `str::trim` removes.
pub open spec fn is_ws_spec(c: char) -> bool {
    let x = c as u32;
    (0x9 <= x <= 0xD) || x == 0x20 || x == 0x85 || x == 0xA0 || x == 0x1680 || (0x2000 <= x
        <= 0x200A) || x == 0x2028 || x == 0x2029 || x == 0x202F || x == 0x205F || x == 0x3000
}

pub open spec fn trim_start_spec(s: Seq<char>) -> Seq<char>
    decreases s.len(),
{
    if s.len() > 0 && is_ws_spec(s[0]) {
        trim_start_spec(s.drop_first())
    } else {
        s
    }
}

pub open spec fn trim_end_spec(s: Seq<char>) -> Seq<char>
    decreases s.len(),
{
    if s.len() > 0 && is_ws_spec(s.last()) {
        trim_end_spec(s.drop_last())
    } else {
        s
    }
}

/// `s` without leading and trailing whitespace.
pub open spec fn trim_spec(s: Seq<char>) -> Seq<char> {
    trim_end_spec(trim_start_spec(s))
}

/// A line without the carriage return that ended it.
pub open spec fn strip_cr_spec(l: Seq<char>) -> Seq<char> {
    if l.len() > 0 && l.last() == '\r' {
        l.drop_last()
    } else {
        l
    }
}

/// The lines of the trimmed text; an empty text has none.
pub open spec fn lines_spec(text: Seq<char>) -> Seq<Seq<char>> {
    let t = trim_spec(text);
    if t.len() == 0 {
        Seq::empty()
    } else {
        split_spec(t, '\n').map_values(|l: Seq<char>| strip_cr_spec(l))
    }
}

fn is_ws(c: char) -> (r: bool)
    ensures
        r == is_ws_spec(c),
{
    let x = c as u32;
    (0x9 <= x && x <= 0xD) || x == 0x20 || x == 0x85 || x == 0xA0 || x == 0x1680 || (0x2000 <= x
        && x <= 0x200A) || x == 0x2028 || x == 0x2029 || x == 0x202F || x == 0x205F || x == 0x3000
}

/// The characters `v[lo..hi]`.
fn sub_vec(v: &Vec<char>, lo: usize, hi: usize) -> (r: Vec<char>)
    requires
        lo <= hi <= v.len(),
    ensures
        r@ == v@.subrange(lo as int, hi as int),
{
    let mut r: Vec<char> = Vec::new();
    let mut i: usize = lo;
    while i < hi
        invariant
            lo <= i <= hi <= v.len(),
            r@ == v@.subrange(lo as int, i as int),
        decreases hi - i,
    {
        r.push(v[i]);
        proof {
            assert(r@ =~= v@.subrange(lo as int, i + 1));
        }
        i = i + 1;
    }
    r
}

/// `v` without leading and trailing whitespace.
pub fn trim_chars(v: &Vec<char>) -> (r: Vec<char>)
    ensures
        r@ == trim_spec(v@),
{
    let n = v.len();
    let mut i: usize = 0;
    proof {
        assert(v@.subrange(0, n as int) =~= v@);
    }
    while i < n && is_ws(v[i])
        invariant
            i <= n == v.len(),
            trim_start_spec(v@) == trim_start_spec(v@.subrange(i as int, n as int)),
        decreases n - i,
    {
        assert(v@.subrange(i as int, n as int).drop_first() =~= v@.subrange(i + 1, n as int));
        i = i + 1;
    }
    let mut j: usize = n;
    while j > i && is_ws(v[j - 1])
        invariant
            i <= j <= n == v.len(),
            trim_start_spec(v@) == v@.subrange(i as int, n as int),
            trim_spec(v@) == trim_end_spec(v@.subrange(i as int, j as int)),
        decreases j,
    {
        assert(v@.subrange(i as int, j as int).drop_last() =~= v@.subrange(i as int, j - 1));
        j = j - 1;
    }
    sub_vec(v, i, j)
}

/// A copy of `s` without the carriage return that may end it.
fn strip_cr(s: &String) -> (r: String)
    ensures
        r@ == strip_cr_spec(s@),
{
    let c = chars_of(s.as_str());
    if c.len() > 0 && c[c.len() - 1] == '\r' {
        let r = string_of(&c, 0, c.len() - 1);
        proof {
            assert(r@ =~= c@.drop_last());
        }
        r
    } else {
        let r = string_of(&c, 0, c.len());
        proof {
            assert(r@ =~= c@);
        }
        r
    }
}

/// The lines of the trimmed text, each without a carriage return before its newline.
pub fn lines_of(text: &str) -> (r: Vec<String>)
    ensures
        r@.map_values(|x: String| x@) == lines_spec(text@),
{
    let all = chars_of(text);
    let t = trim_chars(&all);
    let mut r: Vec<String> = Vec::new();
    if t.len() == 0 {
        proof {
            assert(r@.map_values(|x: String| x@) =~= lines_spec(text@));
        }
        return r;
    }
    let pieces = split_on(&t, '\n');
    let ghost target = split_spec(t@, '\n').map_values(|l: Seq<char>| strip_cr_spec(l));
    let mut i: usize = 0;
    while i < pieces.len()
        invariant
            i <= pieces.len(),
            pieces@.map_values(|x: String| x@) == split_spec(t@, '\n'),
            target == split_spec(t@, '\n').map_values(|l: Seq<char>| strip_cr_spec(l)),
            r@.map_values(|x: String| x@) == target.take(i as int),
        decreases pieces.len() - i,
    {
        let ghost old_r = r@;
        let line = strip_cr(&pieces[i]);
        r.push(line);
        proof {
            assert(pieces@.map_values(|x: String| x@)[i as int] == pieces@[i as int]@);
            assert(r@.map_values(|x: String| x@) =~= old_r.map_values(|x: String| x@).push(line@));
            assert(target.take(i + 1) =~= target.take(i as int).push(target[i as int]));
        }
        i = i + 1;
    }
    proof {
        assert(target.take(i as int) =~= target);
    }
    r
}

/// Index of the first `c` in `s`, or the length of `s`.
pub open spec fn index_of(s: Seq<char>, c: char) -> int
    decreases s.len(),
{
    if s.len() == 0 {
        0
    } else if s[0] == c {
        0
    } else {
        1 + index_of(s.drop_first(), c)
    }
}

pub proof fn lemma_index_of(s: Seq<char>, c: char, i: int)
    requires
        0 <= i <= s.len(),
        forall|j: int| 0 <= j < i ==> #[trigger] s[j] != c,
        i == s.len() || s[i] == c,
    ensures
        index_of(s, c) == i,
    decreases i,
{
    if i > 0 {
        assert forall|j: int| 0 <= j < i - 1 implies #[trigger] s.drop_first()[j] != c by {
            assert(s.drop_first()[j] == s[j + 1]);
        }
        lemma_index_of(s.drop_first(), c, i - 1);
    }
}

} // verus!
