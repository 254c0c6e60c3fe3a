//! Splitting text into lines and joining it back.
use vstd::prelude::*;
use crate::text::{push_char, push_chars, slice_chars};

verus! {

/// Position of the first `c` in `s`, or -1.
pub open spec fn first_index_of(s: Seq<char>, c: char) -> int
    decreases s.len(),
{
    if s.len() == 0 {
        -1
    } else if s[0] == c {
        0
    } else {
        let r = first_index_of(s.drop_first(), c);
        if r < 0 {
            -1
        } else {
            r + 1
        }
    }
}

pub proof fn lemma_first_index_of(s: Seq<char>, c: char)
    ensures
        -1 <= first_index_of(s, c) < s.len(),
        first_index_of(s, c) >= 0 ==> s[first_index_of(s, c)] == c,
        forall|i: int| 0 <= i < s.len() && (first_index_of(s, c) < 0 || i < first_index_of(s, c)) ==> s[i] != c,
    decreases s.len(),
{
    if s.len() > 0 && s[0] != c {
        lemma_first_index_of(s.drop_first(), c);
        assert forall|i: int| 0 <= i < s.len() && (first_index_of(s, c) < 0 || i < first_index_of(s, c)) implies s[i] != c by {
            if i > 0 {
                assert(s[i] == s.drop_first()[i - 1]);
            }
        }
    }
}

/// A line with the carriage return of a "\r\n" ending removed.
pub open spec fn strip_cr(l: Seq<char>) -> Seq<char> {
    if l.len() > 0 && l.last() == '\r' {
        l.drop_last()
    } else {
        l
    }
}

/// `str::lines`: lines end at "\n" or "\r\n"; a final line ending is optional
/// and an empty text has no lines.
pub open spec fn spec_lines(s: Seq<char>) -> Seq<Seq<char>>
    decreases s.len(),
{
    if s.len() == 0 {
        Seq::empty()
    } else {
        let p = first_index_of(s, '\n');
        proof {
            lemma_first_index_of(s, '\n');
        }
        if p < 0 {
            seq![s]
        } else {
            seq![strip_cr(s.take(p))] + spec_lines(s.skip(p + 1))
        }
    }
}

/// `lines.join("\n")`.
pub open spec fn join_lines(ls: Seq<Seq<char>>) -> Seq<char>
    decreases ls.len(),
{
    if ls.len() == 0 {
        Seq::empty()
    } else if ls.len() == 1 {
        ls[0]
    } else {
        join_lines(ls.drop_last()) + seq!['\n'] + ls.last()
    }
}

/// The joined lines, with a final newline added unless one is already there.
pub open spec fn finish_lines(ls: Seq<Seq<char>>) -> Seq<char> {
    let j = join_lines(ls);
    if j.len() > 0 && j.last() == '\n' {
        j
    } else {
        j.push('\n')
    }
}

pub open spec fn lines_view(ls: Seq<Vec<char>>) -> Seq<Seq<char>> {
    ls.map_values(|l: Vec<char>| l@)
}

/// Position of the first `c` at or after `from`.
fn find_from(s: &[char], c: char, from: usize) -> (r: Option<usize>)
    requires
        from <= s@.len(),
    ensures
        r matches Some(p) ==> from <= p < s@.len() && first_index_of(s@.skip(from as int), c) == p - from,
        r is None ==> first_index_of(s@.skip(from as int), c) < 0,
{
    let mut j = from;
    while j < s.len()
        invariant
            from <= j <= s@.len(),
            first_index_of(s@.skip(from as int), c) == if first_index_of(s@.skip(j as int), c) < 0 {
                -1
            } else {
                first_index_of(s@.skip(j as int), c) + (j - from)
            },
        decreases s.len() - j,
    {
        if s[j] == c {
            return Some(j);
        }
        assert(s@.skip(j as int).drop_first() =~= s@.skip(j + 1));
        j += 1;
    }
    None
}

/// `str::lines`, on characters.
pub fn split_lines(s: &[char]) -> (out: Vec<Vec<char>>)
    ensures
        lines_view(out@) == spec_lines(s@),
{
    let mut out: Vec<Vec<char>> = Vec::new();
    let mut start: usize = 0;
    assert(s@.skip(0) =~= s@);
    while start < s.len()
        invariant
            start <= s@.len(),
            spec_lines(s@) == lines_view(out@) + spec_lines(s@.skip(start as int)),
        decreases s.len() - start,
    {
        let ghost rest = s@.skip(start as int);
        match find_from(s, '\n', start) {
            None => {
                out.push(slice_chars(s, start, s.len()));
                assert(s@.subrange(start as int, s@.len() as int) =~= rest);
                assert(lines_view(out@) =~= lines_view(out@.drop_last()).push(rest));
                start = s.len();
            },
            Some(p) => {
                let mut line = slice_chars(s, start, p);
                assert(line@ =~= rest.take(p - start));
                if line.len() > 0 && line[line.len() - 1] == '\r' {
                    line.pop();
                }
                assert(line@ =~= strip_cr(rest.take(p - start)));
                out.push(line);
                assert(rest.skip(p - start + 1) =~= s@.skip(p + 1));
                assert(lines_view(out@) =~= lines_view(out@.drop_last()).push(line@));
                start = p + 1;
            },
        }
    }
    assert(s@.skip(start as int) =~= Seq::<char>::empty());
    assert(lines_view(out@) + Seq::<Seq<char>>::empty() =~= lines_view(out@));
    out
}

/// Joins the lines with "\n" and makes sure the text ends with a newline.
pub fn finish(lines: &Vec<Vec<char>>) -> (out: String)
    ensures
        out@ == finish_lines(lines_view(lines@)),
{
    let mut out = String::new();
    let mut i: usize = 0;
    while i < lines.len()
        invariant
            i <= lines@.len(),
            out@ == join_lines(lines_view(lines@).take(i as int)),
        decreases lines.len() - i,
    {
        let ghost before = lines_view(lines@).take(i as int);
        assert(lines_view(lines@).take(i + 1).drop_last() =~= before);
        if i > 0 {
            push_char(&mut out, '\n');
        }
        push_chars(&mut out, lines[i].as_slice());
        proof {
            if i == 0 {
                assert(out@ =~= lines_view(lines@).take(1)[0]);
            }
        }
        i += 1;
    }
    assert(lines_view(lines@).take(i as int) =~= lines_view(lines@));
    let ghost joined = out@;
    let mut ends_nl = false;
    let n = string_char_count(&out);
    if n > 0 {
        ends_nl = last_char_is_newline(&out);
    }
    if !ends_nl {
        push_char(&mut out, '\n');
    }
    out
}

/// Number of characters in a string.
fn string_char_count(s: &String) -> (n: usize)
    ensures
        n == s@.len(),
{
    s.as_str().unicode_len()
}

/// The last character of a non-empty string is a newline.
fn last_char_is_newline(s: &String) -> (r: bool)
    requires
        s@.len() > 0,
    ensures
        r == (s@.last() == '\n'),
{
    let n = s.as_str().unicode_len();
    s.as_str().get_char(n - 1) == '\n'
}

/// The line holds no newline.
pub open spec fn no_newline(l: Seq<char>) -> bool {
    forall|i: int| 0 <= i < l.len() ==> #[trigger] l[i] != '\n'
}

/// Each line without the carriage return of a "\r\n" ending.
pub open spec fn strip_all(ls: Seq<Seq<char>>) -> Seq<Seq<char>> {
    ls.map_values(|l: Seq<char>| strip_cr(l))
}

/// What finished lines read back as: each without a final carriage return,
/// and a last empty line after others gone (it reads as the closing newline).
pub open spec fn read_back(ls: Seq<Seq<char>>) -> Seq<Seq<char>> {
    if ls.len() >= 2 && ls.last().len() == 0 {
        strip_all(ls.drop_last())
    } else {
        strip_all(ls)
    }
}

/// A line without a newline, followed by one, splits off as that line.
proof fn lemma_lines_cons(l: Seq<char>, rest: Seq<char>)
    requires
        no_newline(l),
    ensures
        spec_lines(l + seq!['\n'] + rest) == seq![strip_cr(l)] + spec_lines(rest),
{
    let s = l + seq!['\n'] + rest;
    lemma_first_index_of(s, '\n');
    let p = first_index_of(s, '\n');
    assert(s[l.len() as int] == '\n');
    assert forall|i: int| 0 <= i < l.len() implies s[i] != '\n' by {
        assert(s[i] == l[i]);
    }
    assert(p == l.len());
    assert(s.take(p) =~= l);
    assert(s.skip(p + 1) =~= rest);
}

/// Joining lines, from the front: the first line, a newline, the rest.
proof fn lemma_join_front(ls: Seq<Seq<char>>)
    requires
        ls.len() >= 2,
    ensures
        join_lines(ls) == ls[0] + seq!['\n'] + join_lines(ls.drop_first()),
    decreases ls.len(),
{
    if ls.len() == 2 {
        assert(ls.drop_last() =~= seq![ls[0]]);
        assert(ls.drop_first() =~= seq![ls[1]]);
        assert(join_lines(ls.drop_last()) == ls[0]);
        assert(join_lines(ls.drop_first()) == ls[1]);
        assert(ls.last() == ls[1]);
    } else {
        lemma_join_front(ls.drop_last());
        assert(ls.drop_last().drop_first() =~= ls.drop_first().drop_last());
        assert(ls.drop_first().last() == ls.last());
        assert(join_lines(ls.drop_first()) == join_lines(ls.drop_first().drop_last()) + seq!['\n'] + ls.last());
        assert(ls.drop_last()[0] == ls[0]);
        assert(join_lines(ls) =~= ls[0] + seq!['\n'] + join_lines(ls.drop_first()));
    }
}

/// Joined lines with a closing newline split back into those lines, each
/// without a final carriage return.
proof fn lemma_lines_of_joined(ls: Seq<Seq<char>>)
    requires
        ls.len() > 0,
        forall|i: int| 0 <= i < ls.len() ==> no_newline(#[trigger] ls[i]),
    ensures
        spec_lines(join_lines(ls) + seq!['\n']) == strip_all(ls),
    decreases ls.len(),
{
    if ls.len() == 1 {
        lemma_lines_cons(ls[0], Seq::empty());
        assert(ls[0] + seq!['\n'] + Seq::<char>::empty() =~= join_lines(ls) + seq!['\n']);
        assert(seq![strip_cr(ls[0])] + spec_lines(Seq::<char>::empty()) =~= strip_all(ls));
    } else {
        lemma_join_front(ls);
        let rest = ls.drop_first();
        assert forall|i: int| 0 <= i < rest.len() implies no_newline(#[trigger] rest[i]) by {
            assert(rest[i] == ls[i + 1]);
        }
        lemma_lines_of_joined(rest);
        assert(no_newline(ls[0]));
        lemma_lines_cons(ls[0], join_lines(rest) + seq!['\n']);
        assert(join_lines(ls) + seq!['\n'] =~= ls[0] + seq!['\n'] + (join_lines(rest) + seq!['\n']));
        assert(seq![strip_cr(ls[0])] + strip_all(rest) =~= strip_all(ls));
    }
}

proof fn lemma_join_last(ls: Seq<Seq<char>>)
    requires
        ls.len() > 0,
    ensures
        ls.last().len() > 0 ==> join_lines(ls).len() > 0 && join_lines(ls).last() == ls.last().last(),
        ls.len() == 1 ==> join_lines(ls) == ls[0],
        ls.len() >= 2 ==> join_lines(ls) == join_lines(ls.drop_last()) + seq!['\n'] + ls.last(),
{
}

/// Finished lines (none holding a newline) read back as `read_back` says.
pub proof fn lemma_finish_reads_back(ls: Seq<Seq<char>>)
    requires
        ls.len() > 0,
        forall|i: int| 0 <= i < ls.len() ==> no_newline(#[trigger] ls[i]),
    ensures
        spec_lines(finish_lines(ls)) == read_back(ls),
        finish_lines(ls) == join_lines(if ls.len() >= 2 && ls.last().len() == 0 { ls.drop_last() } else { ls }) + seq!['\n'],
{
    lemma_join_last(ls);
    let j = join_lines(ls);
    if ls.len() >= 2 && ls.last().len() == 0 {
        let d = ls.drop_last();
        assert(j =~= join_lines(d) + seq!['\n']);
        assert(finish_lines(ls) == j);
        assert forall|i: int| 0 <= i < d.len() implies no_newline(#[trigger] d[i]) by {
            assert(d[i] == ls[i]);
        }
        lemma_lines_of_joined(d);
    } else {
        if ls.last().len() > 0 {
            assert(no_newline(ls[ls.len() - 1]));
            assert(ls.last()[ls.last().len() - 1] != '\n');
        } else {
            assert(ls.len() == 1);
            assert(j.len() == 0);
        }
        assert(finish_lines(ls) == j.push('\n'));
        assert(j.push('\n') =~= j + seq!['\n']);
        lemma_lines_of_joined(ls);
    }
}

/// No line of a text holds a newline.
pub proof fn lemma_lines_no_newline(s: Seq<char>)
    ensures
        forall|i: int| 0 <= i < spec_lines(s).len() ==> no_newline(#[trigger] spec_lines(s)[i]),
    decreases s.len(),
{
    if s.len() > 0 {
        lemma_first_index_of(s, '\n');
        let p = first_index_of(s, '\n');
        if p < 0 {
            assert(spec_lines(s) == seq![s]);
        } else {
            lemma_lines_no_newline(s.skip(p + 1));
            let first = strip_cr(s.take(p));
            assert(no_newline(first)) by {
                assert forall|i: int| 0 <= i < first.len() implies #[trigger] first[i] != '\n' by {
                    assert(first[i] == s[i]);
                }
            }
            let ls = spec_lines(s);
            assert(ls == seq![first] + spec_lines(s.skip(p + 1)));
            assert forall|i: int| 0 <= i < ls.len() implies no_newline(#[trigger] ls[i]) by {
                if i > 0 {
                    assert(ls[i] == spec_lines(s.skip(p + 1))[i - 1]);
                }
            }
        }
    }
}

} // verus!
