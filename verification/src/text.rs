//! Character-level text utilities: turning a `&str` into its characters,
//! splitting on a separator, trimming trailing whitespace, and normalizing
//! CRLF line endings — the primitives the room-file codec is built on.
use vstd::prelude::*;

verus! {

/// The characters of a string slice.
pub fn str_chars(s: &str) -> (r: Vec<char>)
    ensures
        r@ == s@,
{
    let n = s.unicode_len();
    let mut r: Vec<char> = Vec::new();
    let mut i: usize = 0;
    while i < n
        invariant
            i <= n,
            n == s@.len(),
            r@ == s@.take(i as int),
        decreases n - i,
    {
        r.push(s.get_char(i));
        assert(r@ =~= s@.take(i + 1));
        i = i + 1;
    }
    assert(r@ =~= s@);
    r
}

/// Relies on `String: FromIterator<char>`: collecting characters yields the
/// string of exactly those characters, in order.
#[verifier::external_body]
pub fn chars_to_string(v: &Vec<char>) -> (r: String)
    ensures
        r@ == v@,
{
    v.iter().collect()
}

/// Whether a character has the Unicode `White_Space` property, as
/// `char::is_whitespace` decides it.
pub uninterp spec fn white_space(c: char) -> bool;

/// Relies on `char::is_whitespace`: the result depends on the character alone.
pub assume_specification[ char::is_whitespace ](c: char) -> (r: bool)
    ensures
        r == white_space(c),
;

/// `s` without its maximal run of trailing whitespace characters.
pub open spec fn trim_end_spec(s: Seq<char>) -> Seq<char>
    decreases s.len(),
{
    if s.len() > 0 && white_space(s.last()) {
        trim_end_spec(s.drop_last())
    } else {
        s
    }
}

/// Drop trailing whitespace.
pub fn trim_end(v: &Vec<char>) -> (r: Vec<char>)
    ensures
        r@ == trim_end_spec(v@),
{
    let mut n: usize = v.len();
    assert(v@.take(n as int) =~= v@);
    while n > 0 && v[n - 1].is_whitespace()
        invariant
            n <= v.len(),
            trim_end_spec(v@) == trim_end_spec(v@.take(n as int)),
        decreases n,
    {
        assert(v@.take(n as int).last() == v@[n - 1]);
        assert(v@.take(n as int).drop_last() =~= v@.take(n - 1));
        n = n - 1;
    }
    let mut r: Vec<char> = Vec::new();
    let mut i: usize = 0;
    while i < n
        invariant
            i <= n <= v.len(),
            r@ == v@.take(n as int).take(i as int),
        decreases n - i,
    {
        r.push(v[i]);
        assert(r@ =~= v@.take(n as int).take(i + 1));
        i = i + 1;
    }
    proof {
        assert(r@ =~= v@.take(n as int));
        if n > 0 {
            assert(v@.take(n as int).last() == v@[n - 1]);
        }
        lemma_trim_end_no_ws(v@.take(n as int));
    }
    r
}

/// A sequence with no trailing whitespace is its own trim.
proof fn lemma_trim_end_no_ws(s: Seq<char>)
    requires
        s.len() == 0 || !white_space(s.last()),
    ensures
        trim_end_spec(s) == s,
{
}

/// The pieces of `s` between occurrences of `sep`: one more piece than
/// there are separators, so the empty string splits into one empty piece.
pub open spec fn split_sep(s: Seq<char>, sep: char) -> Seq<Seq<char>>
    decreases s.len(),
{
    if s.len() == 0 {
        seq![Seq::empty()]
    } else {
        let rest = split_sep(s.drop_last(), sep);
        if s.last() == sep {
            rest.push(Seq::empty())
        } else {
            rest.update(rest.len() - 1, rest.last().push(s.last()))
        }
    }
}

/// A split always yields at least one piece.
pub proof fn lemma_split_sep_len(s: Seq<char>, sep: char)
    ensures
        split_sep(s, sep).len() >= 1,
    decreases s.len(),
{
    if s.len() > 0 {
        lemma_split_sep_len(s.drop_last(), sep);
    }
}

/// Split `s` on every occurrence of `sep`.
pub fn split_on(v: &Vec<char>, sep: char) -> (r: Vec<Vec<char>>)
    ensures
        r.deep_view() == split_sep(v@, sep),
{
    let mut r: Vec<Vec<char>> = Vec::new();
    let mut cur: Vec<char> = Vec::new();
    let mut i: usize = 0;
    assert(split_sep(v@.take(0), sep) =~~= r.deep_view().push(cur@));
    while i < v.len()
        invariant
            i <= v.len(),
            split_sep(v@.take(i as int), sep) =~~= r.deep_view().push(cur@),
        decreases v.len() - i,
    {
        proof {
            assert(v@.take(i + 1).drop_last() =~= v@.take(i as int));
            assert(v@.take(i + 1).last() == v@[i as int]);
        }
        if v[i] == sep {
            r.push(cur);
            cur = Vec::new();
            proof {
                assert(split_sep(v@.take(i + 1), sep) =~~= r.deep_view().push(cur@));
            }
        } else {
            let ghost prev = r.deep_view().push(cur@);
            cur.push(v[i]);
            proof {
                assert(prev.len() >= 1);
                assert(prev.update(prev.len() - 1, prev.last().push(v@[i as int]))
                    =~~= r.deep_view().push(cur@));
            }
        }
        i = i + 1;
    }
    assert(v@.take(v.len() as int) =~= v@);
    r.push(cur);
    proof {
        assert(split_sep(v@, sep) =~~= r.deep_view());
    }
    r
}

/// `s` with every CRLF pair replaced by a single LF.
pub open spec fn normalize_crlf(s: Seq<char>) -> Seq<char>
    decreases s.len(),
{
    if s.len() >= 2 && s[s.len() - 2] == '\r' && s[s.len() - 1] == '\n' {
        normalize_crlf(s.take(s.len() - 2)).push('\n')
    } else if s.len() >= 1 {
        normalize_crlf(s.drop_last()).push(s.last())
    } else {
        Seq::empty()
    }
}

/// Replace every CRLF pair by a single LF.
pub fn normalize_newlines(v: &Vec<char>) -> (r: Vec<char>)
    ensures
        r@ == normalize_crlf(v@),
{
    let mut r: Vec<char> = Vec::new();
    let mut i: usize = 0;
    while i < v.len()
        invariant
            i <= v.len(),
            r@ == normalize_crlf(v@.take(i as int)),
            i > 0 ==> !(v@[i - 1] == '\r' && i < v@.len() && v@[i as int] == '\n'),
        decreases v.len() - i,
    {
        if v[i] == '\r' && i + 1 < v.len() && v[i + 1] == '\n' {
            r.push('\n');
            proof {
                let t = v@.take(i + 2);
                assert(t[t.len() - 2] == '\r' && t[t.len() - 1] == '\n');
                assert(t.take(t.len() - 2) =~= v@.take(i as int));
            }
            i = i + 2;
        } else {
            r.push(v[i]);
            proof {
                let t = v@.take(i + 1);
                assert(t.len() >= 1 && t.last() == v@[i as int]);
                if t.len() >= 2 && t[t.len() - 2] == '\r' && t[t.len() - 1] == '\n' {
                    assert(v@[i - 1] == '\r' && v@[i as int] == '\n');
                    assert(false);
                }
                assert(t.drop_last() =~= v@.take(i as int));
            }
            i = i + 1;
        }
    }
    assert(v@.take(v.len() as int) =~= v@);
    r
}

/// Indexing the deep view of a vector of character vectors gives the
/// view of the element.
pub proof fn lemma_deep_index(v: &Vec<Vec<char>>, i: int)
    requires
        0 <= i < v@.len(),
    ensures
        v.deep_view()[i] == v@[i]@,
{
    assert(v.deep_view()[i] =~= v@[i]@);
}

/// Indexing the deep view of a vector of strings gives the view of the
/// element.
pub proof fn lemma_deep_index_str(v: &Vec<String>, i: int)
    requires
        0 <= i < v@.len(),
    ensures
        v.deep_view()[i] == v@[i]@,
{
    assert(v.deep_view()[i] =~= v@[i]@);
}

/// Compare two character vectors.
pub fn chars_eq(a: &Vec<char>, b: &Vec<char>) -> (r: bool)
    ensures
        r == (a@ == b@),
{
    if a.len() != b.len() {
        return false;
    }
    let mut i: usize = 0;
    while i < a.len()
        invariant
            i <= a.len(),
            a.len() == b.len(),
            forall|j: int| 0 <= j < i ==> a@[j] == b@[j],
        decreases a.len() - i,
    {
        if a[i] != b[i] {
            return false;
        }
        i = i + 1;
    }
    proof {
        assert(a@ =~= b@);
    }
    true
}


/// A string without the separator splits into itself alone.
pub proof fn lemma_split_no_sep(s: Seq<char>, sep: char)
    requires
        forall|i: int| 0 <= i < s.len() ==> s[i] != sep,
    ensures
        split_sep(s, sep) == seq![s],
    decreases s.len(),
{
    if s.len() == 0 {
        assert(split_sep(s, sep) =~~= seq![s]);
    } else {
        assert(forall|i: int| 0 <= i < s.len() - 1 ==> s.drop_last()[i] == s[i]);
        lemma_split_no_sep(s.drop_last(), sep);
        assert(split_sep(s, sep) =~~= seq![s]);
    }
}

/// Splitting after a separator-free prefix: the prefix becomes the first
/// piece, and the rest splits on its own.
pub proof fn lemma_split_prefix(l: Seq<char>, rest: Seq<char>, sep: char)
    requires
        forall|i: int| 0 <= i < l.len() ==> l[i] != sep,
    ensures
        split_sep(l + seq![sep] + rest, sep) == seq![l] + split_sep(rest, sep),
    decreases rest.len(),
{
    let whole = l + seq![sep] + rest;
    if rest.len() == 0 {
        assert(whole.last() == sep);
        assert(whole.drop_last() =~= l);
        lemma_split_no_sep(l, sep);
        assert(split_sep(whole, sep) =~~= seq![l] + split_sep(rest, sep));
    } else {
        let whole2 = l + seq![sep] + rest.drop_last();
        assert(whole.drop_last() =~= whole2);
        assert(whole.last() == rest.last());
        lemma_split_prefix(l, rest.drop_last(), sep);
        lemma_split_sep_len(rest.drop_last(), sep);
        if rest.last() == sep {
            assert(split_sep(whole, sep) =~~= seq![l] + split_sep(rest, sep));
        } else {
            assert((seq![l] + split_sep(rest.drop_last(), sep)).last() == split_sep(
                rest.drop_last(),
                sep,
            ).last());
            assert(split_sep(whole, sep) =~~= seq![l] + split_sep(rest, sep));
        }
    }
}

/// Splitting a concatenation whose first part ends with the separator:
/// the parts split independently.
pub proof fn lemma_split_concat(x: Seq<char>, y: Seq<char>, sep: char)
    requires
        x.len() > 0,
        x.last() == sep,
    ensures
        split_sep(x + y, sep) == split_sep(x, sep).drop_last() + split_sep(y, sep),
    decreases y.len(),
{
    lemma_split_sep_len(x.drop_last(), sep);
    if y.len() == 0 {
        assert(x + y =~= x);
        assert(split_sep(x, sep) == split_sep(x.drop_last(), sep).push(Seq::empty()));
        assert(split_sep(x, sep).drop_last() =~~= split_sep(x.drop_last(), sep));
        assert(split_sep(x, sep).drop_last() + split_sep(y, sep) =~~= split_sep(
            x + y,
            sep,
        ));
    } else {
        assert((x + y).drop_last() =~= x + y.drop_last());
        assert((x + y).last() == y.last());
        lemma_split_concat(x, y.drop_last(), sep);
        lemma_split_sep_len(y.drop_last(), sep);
        if y.last() == sep {
            assert(split_sep(x + y, sep) =~~= split_sep(x, sep).drop_last() + split_sep(
                y,
                sep,
            ));
        } else {
            let prev = split_sep(x, sep).drop_last() + split_sep(y.drop_last(), sep);
            assert(prev.last() == split_sep(y.drop_last(), sep).last());
            assert(split_sep(x + y, sep) =~~= split_sep(x, sep).drop_last() + split_sep(
                y,
                sep,
            ));
        }
    }
}

/// A text without CR is already normalized.
pub proof fn lemma_normalize_id(s: Seq<char>)
    requires
        forall|i: int| 0 <= i < s.len() ==> s[i] != '\r',
    ensures
        normalize_crlf(s) == s,
    decreases s.len(),
{
    if s.len() > 0 {
        assert(forall|i: int| 0 <= i < s.len() - 1 ==> s.drop_last()[i] == s[i]);
        lemma_normalize_id(s.drop_last());
        if s.len() >= 2 {
            assert(s[s.len() - 2] != '\r');
        }
        assert(normalize_crlf(s) =~= s);
    }
}

} // verus!
