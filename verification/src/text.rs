//! Verified text primitives shared by the SSE frame decoder and the
//! code-fence extractor: first-occurrence search, line splitting, and
//! character-exact string equality.

use vstd::prelude::*;

verus! {

/// Index of the first occurrence of `x` in `s`, or `s.len()` when `x`
/// does not occur.
pub open spec fn first_index_of<T>(s: Seq<T>, x: T) -> nat
    decreases s.len(),
{
    if s.len() == 0 {
        0
    } else if s[0] == x {
        0
    } else {
        1 + first_index_of(s.drop_first(), x)
    }
}

pub proof fn lemma_first_index_of<T>(s: Seq<T>, x: T)
    ensures
        first_index_of(s, x) <= s.len(),
        first_index_of(s, x) < s.len() ==> s[first_index_of(s, x) as int] == x,
        forall|j: int| 0 <= j < first_index_of(s, x) ==> s[j] != x,
    decreases s.len(),
{
    if s.len() != 0 && s[0] != x {
        lemma_first_index_of(s.drop_first(), x);
        assert forall|j: int| 0 <= j < first_index_of(s, x) implies s[j] != x by {
            if j > 0 {
                assert(s.drop_first()[j - 1] == s[j]);
            }
        }
    }
}

/// `s` split at every newline character. The separators are dropped; a
/// trailing newline yields a final empty line, so joining the result with
/// newlines gives `s` back exactly.
pub open spec fn spec_split_lines(s: Seq<char>) -> Seq<Seq<char>>
    decreases s.len(),
{
    let i = first_index_of(s, '\n');
    if i >= s.len() {
        seq![s]
    } else {
        seq![s.take(i as int)] + spec_split_lines(s.skip(i as int + 1))
    }
}

/// Inverse of `spec_split_lines`: the lines joined by single newlines.
pub open spec fn spec_join_lines(lines: Seq<Seq<char>>) -> Seq<char>
    decreases lines.len(),
{
    if lines.len() == 0 {
        Seq::empty()
    } else if lines.len() == 1 {
        lines[0]
    } else {
        lines[0] + seq!['\n'] + spec_join_lines(lines.drop_first())
    }
}

/// Splitting never yields an empty sequence of lines.
pub proof fn lemma_split_lines_len(s: Seq<char>)
    ensures
        spec_split_lines(s).len() >= 1,
{
}

/// Joining the split lines restores the original text.
pub proof fn lemma_split_join(s: Seq<char>)
    ensures
        spec_join_lines(spec_split_lines(s)) == s,
    decreases s.len(),
{
    lemma_first_index_of(s, '\n');
    let i = first_index_of(s, '\n');
    if i >= s.len() {
        assert(spec_join_lines(seq![s]) == s);
    } else {
        let rest = s.skip(i as int + 1);
        lemma_split_join(rest);
        lemma_split_lines_len(rest);
        let parts = spec_split_lines(s);
        assert(parts.drop_first() =~= spec_split_lines(rest));
        assert(spec_join_lines(parts) == s.take(i as int) + seq!['\n'] + rest);
        assert(s.take(i as int) + seq!['\n'] + rest =~= s);
    }
}

/// Character-exact equality of two string slices.
pub fn str_eq(a: &str, b: &str) -> (r: bool)
    ensures
        r == (a@ == b@),
{
    let a_len = a.unicode_len();
    let b_len = b.unicode_len();
    if a_len != b_len {
        assert(a@ != b@);
        return false;
    }
    let mut i: usize = 0;
    while i < a_len
        invariant
            i <= a_len,
            a_len == a@.len(),
            a_len == b@.len(),
            forall|j: int| 0 <= j < i ==> a@[j] == b@[j],
        decreases a_len - i,
    {
        if a.get_char(i) != b.get_char(i) {
            return false;
        }
        i += 1;
    }
    proof {
        assert(a@ =~= b@);
    }
    true
}

/// Index of the first newline in `s`, or `s.len()` when none occurs.
pub fn find_newline(s: &str) -> (i: usize)
    ensures
        i as nat == first_index_of(s@, '\n'),
{
    let len = s.unicode_len();
    let mut i: usize = 0;
    while i < len
        invariant
            i <= len,
            len == s@.len(),
            forall|j: int| 0 <= j < i ==> s@[j] != '\n',
        decreases len - i,
    {
        if s.get_char(i) == '\n' {
            proof {
                lemma_first_index_of(s@, '\n');
                let f = first_index_of(s@, '\n');
                if f < i {
                    assert(s@[f as int] == '\n');
                }
                if f > i {
                    assert(s@[i as int] != '\n');
                }
            }
            return i;
        }
        i += 1;
    }
    proof {
        lemma_first_index_of(s@, '\n');
        let f = first_index_of(s@, '\n');
        if f < len {
            assert(s@[f as int] == '\n');
        }
    }
    len
}

/// The lines of `s`, as fresh strings, in order.
pub fn split_lines(s: &str) -> (lines: Vec<String>)
    ensures
        lines.deep_view() == spec_split_lines(s@),
{
    let len = s.unicode_len();
    let mut lines: Vec<String> = Vec::new();
    let mut start: usize = 0;
    proof {
        assert(s@.skip(0) =~= s@);
        assert(lines.deep_view() + spec_split_lines(s@) =~= spec_split_lines(s@));
    }
    loop
        invariant
            start <= len,
            len == s@.len(),
            spec_split_lines(s@) == lines.deep_view() + spec_split_lines(s@.skip(start as int)),
        decreases len - start,
    {
        let rest = s.substring_char(start, len);
        let j = find_newline(rest);
        proof {
            lemma_first_index_of(rest@, '\n');
        }
        let ghost pre = lines.deep_view();
        if j >= rest.unicode_len() {
            let piece = String::from_str(rest);
            lines.push(piece);
            proof {
                assert(rest@ =~= s@.skip(start as int));
                assert(spec_split_lines(s@.skip(start as int)) =~= seq![s@.skip(start as int)]);
                assert(lines.deep_view() =~= pre + seq![s@.skip(start as int)]);
            }
            return lines;
        } else {
            let piece = String::from_str(s.substring_char(start, start + j));
            lines.push(piece);
            proof {
                let tail = s@.skip(start as int);
                assert(rest@ =~= tail);
                assert(tail.take(j as int) =~= s@.subrange(start as int, (start + j) as int));
                assert(tail.skip(j as int + 1) =~= s@.skip((start + j + 1) as int));
                assert(spec_split_lines(tail) == seq![tail.take(j as int)] + spec_split_lines(
                    tail.skip(j as int + 1)));
                assert(lines.deep_view() =~= pre + seq![
                    s@.subrange(start as int, (start + j) as int),
                ]);
                assert(lines.deep_view() + spec_split_lines(s@.skip((start + j + 1) as int))
                    =~= spec_split_lines(s@));
            }
            start = start + j + 1;
        }
    }
}

} // verus!
