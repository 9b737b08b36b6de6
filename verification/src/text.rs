//! Character-level string helpers: equality, prefix tests, and the path
//! component operations the tree model is built on.
use vstd::prelude::*;
use vstd::string::StrSliceExecFns;
use vstd::string::StringExecFns;

verus! {

/// Index of the last occurrence of `c` in `p`, or -1 when absent.
pub open spec fn spec_last_index_of(p: Seq<char>, c: char) -> int
    decreases p.len(),
{
    if p.len() == 0 {
        -1
    } else if p.last() == c {
        p.len() - 1
    } else {
        spec_last_index_of(p.drop_last(), c)
    }
}

pub proof fn lemma_last_index_of_bounds(p: Seq<char>, c: char)
    ensures
        -1 <= spec_last_index_of(p, c) < p.len(),
        spec_last_index_of(p, c) >= 0 ==> p[spec_last_index_of(p, c)] == c,
        forall|j: int| spec_last_index_of(p, c) < j < p.len() ==> p[j] != c,
    decreases p.len(),
{
    if p.len() > 0 && p.last() != c {
        lemma_last_index_of_bounds(p.drop_last(), c);
        assert forall|j: int| spec_last_index_of(p, c) < j < p.len() implies p[j] != c by {
            if j < p.len() - 1 {
                assert(p.drop_last()[j] == p[j]);
            }
        }
    }
}

/// The display name of a path: the component after the last separator when
/// that component is not empty, else the whole path (so the root "/" keeps
/// its own text as a name).
pub open spec fn spec_file_name(p: Seq<char>) -> Seq<char> {
    let i = spec_last_index_of(p, '/');
    if i >= 0 && i + 1 < p.len() {
        p.skip(i + 1)
    } else {
        p
    }
}

/// The parent of a path: everything before the last separator; the root "/"
/// and the empty path have none, and a path without separators has the
/// empty parent.
pub open spec fn spec_parent(p: Seq<char>) -> Option<Seq<char>> {
    if p =~= seq!['/'] || p.len() == 0 {
        None
    } else {
        let i = spec_last_index_of(p, '/');
        if i > 0 {
            Some(p.take(i))
        } else if i == 0 {
            Some(seq!['/'])
        } else {
            Some(Seq::<char>::empty())
        }
    }
}

/// A parent path is always strictly shorter than the path itself.
pub proof fn lemma_parent_shorter(p: Seq<char>)
    requires
        spec_parent(p) is Some,
    ensures
        spec_parent(p).unwrap().len() < p.len(),
{
    lemma_last_index_of_bounds(p, '/');
    let i = spec_last_index_of(p, '/');
    if i > 0 {
    } else if i == 0 {
        if p.len() == 1 {
            assert(p[0] == '/');
            assert(p =~= seq!['/']);
        }
    }
}


/// The path with a trailing separator: the prefix every entry directly or
/// transitively below it carries.
pub open spec fn spec_path_sep(p: Seq<char>) -> Seq<char> {
    if p.len() > 0 && p.last() == '/' {
        p
    } else {
        p.push('/')
    }
}

/// Whether `c` is the path of a direct child of the path `p`: `p`, one
/// separator, then exactly one non-empty component with no separator in it.
pub open spec fn spec_is_path_child(p: Seq<char>, c: Seq<char>) -> bool {
    let sep = spec_path_sep(p);
    &&& c.len() > sep.len()
    &&& c.take(sep.len() as int) == sep
    &&& forall|j: int| sep.len() <= j < c.len() ==> c[j] != '/'
}

/// Whether `q` lies somewhere below the path `p`: it starts with `p` plus a
/// separator and continues.
pub open spec fn spec_path_under(p: Seq<char>, q: Seq<char>) -> bool {
    let sep = spec_path_sep(p);
    &&& q.len() > sep.len()
    &&& q.take(sep.len() as int) == sep
}

/// A child's path lies below the parent's, and is strictly longer.
pub proof fn lemma_path_child_under(p: Seq<char>, c: Seq<char>)
    requires
        spec_is_path_child(p, c),
    ensures
        spec_path_under(p, c),
        c.len() > p.len(),
{
}

/// Anything below a child's path lies below the parent's path too.
pub proof fn lemma_path_under_trans(p: Seq<char>, c: Seq<char>, q: Seq<char>)
    requires
        spec_is_path_child(p, c),
        spec_path_under(c, q),
    ensures
        spec_path_under(p, q),
{
    let sep = spec_path_sep(p);
    let csep = spec_path_sep(c);
    assert(c.last() != '/');
    assert(csep =~= c.push('/'));
    assert(q.len() > csep.len());
    assert forall|j: int| 0 <= j < sep.len() implies q[j] == sep[j] by {
        assert(q.take(csep.len() as int)[j] == csep[j]);
        assert(csep[j] == c[j]);
        assert(c.take(sep.len() as int)[j] == sep[j]);
    }
    assert(q.take(sep.len() as int) =~= sep);
}

/// Two sibling paths under one parent cannot both stand at or above the
/// same path: the first component after the parent pins the sibling.
pub proof fn lemma_path_siblings_separate(
    p: Seq<char>,
    c1: Seq<char>,
    c2: Seq<char>,
    q: Seq<char>,
)
    requires
        spec_is_path_child(p, c1),
        spec_is_path_child(p, c2),
        q == c1 || spec_path_under(c1, q),
        q == c2 || spec_path_under(c2, q),
    ensures
        c1 == c2,
{
    let sep = spec_path_sep(p);
    let n = sep.len() as int;
    if q == c1 && q == c2 {
    } else if q == c1 {
        // q is c1 itself, yet it would continue past c2 with a separator
        // that c1's single component cannot hold
        let csep2 = spec_path_sep(c2);
        assert(c2.last() != '/');
        assert(csep2 =~= c2.push('/'));
        assert(q.take(csep2.len() as int)[c2.len() as int] == csep2[c2.len() as int]);
        assert(q[c2.len() as int] == '/');
        assert(c2.len() >= n);
        assert(false);
    } else if q == c2 {
        let csep1 = spec_path_sep(c1);
        assert(c1.last() != '/');
        assert(csep1 =~= c1.push('/'));
        assert(q.take(csep1.len() as int)[c1.len() as int] == csep1[c1.len() as int]);
        assert(q[c1.len() as int] == '/');
        assert(c1.len() >= n);
        assert(false);
    } else {
        // both components start q after the parent prefix; the shorter one
        // would put a separator inside the longer one's component
        let csep1 = spec_path_sep(c1);
        let csep2 = spec_path_sep(c2);
        assert(c1.last() != '/');
        assert(c2.last() != '/');
        assert(csep1 =~= c1.push('/'));
        assert(csep2 =~= c2.push('/'));
        assert(q.take(csep1.len() as int)[c1.len() as int] == csep1[c1.len() as int]);
        assert(q.take(csep2.len() as int)[c2.len() as int] == csep2[c2.len() as int]);
        assert(q[c1.len() as int] == '/');
        assert(q[c2.len() as int] == '/');
        assert forall|j: int| 0 <= j < c1.len() implies q[j] == c1[j] by {
            assert(q.take(csep1.len() as int)[j] == csep1[j]);
        }
        assert forall|j: int| 0 <= j < c2.len() implies q[j] == c2[j] by {
            assert(q.take(csep2.len() as int)[j] == csep2[j]);
        }
        if c1.len() < c2.len() {
            assert(c2[c1.len() as int] == q[c1.len() as int]);
            assert(c2[c1.len() as int] != '/');
            assert(false);
        } else if c2.len() < c1.len() {
            assert(c1[c2.len() as int] == q[c2.len() as int]);
            assert(c1[c2.len() as int] != '/');
            assert(false);
        } else {
            assert(c1 =~= c2);
        }
    }
}

/// Position of the last occurrence of `c` in the string, or none.
pub(crate) fn last_char_index(p: &str, c: char) -> (r: Option<usize>)
    ensures
        match r {
            Some(i) => i as int == spec_last_index_of(p@, c),
            None => spec_last_index_of(p@, c) == -1,
        },
{
    let n = p.unicode_len();
    let mut i: usize = 0;
    let mut last: Option<usize> = None;
    proof {
        assert(p@.take(0) =~= Seq::<char>::empty());
    }
    while i < n
        invariant
            i <= n,
            n as int == p@.len(),
            match last {
                Some(k) => k as int == spec_last_index_of(p@.take(i as int), c),
                None => spec_last_index_of(p@.take(i as int), c) == -1,
            },
        decreases n - i,
    {
        let ch = p.get_char(i);
        proof {
            assert(p@.take(i as int + 1).drop_last() =~= p@.take(i as int));
            assert(p@.take(i as int + 1).last() == p@[i as int]);
        }
        if ch == c {
            last = Some(i);
        }
        i = i + 1;
    }
    proof {
        assert(p@.take(n as int) =~= p@);
    }
    last
}

/// The display name of a path, as `spec_file_name` states it.
pub fn file_name_of(p: &String) -> (r: String)
    ensures
        r@ == spec_file_name(p@),
{
    let n = p.as_str().unicode_len();
    proof {
        lemma_last_index_of_bounds(p@, '/');
    }
    match last_char_index(p.as_str(), '/') {
        Some(i) => {
            if i + 1 < n {
                let sub = p.as_str().substring_char(i + 1, n);
                proof {
                    assert(p@.subrange(i as int + 1, n as int) =~= p@.skip(i as int + 1));
                }
                String::from_str(sub)
            } else {
                p.clone()
            }
        },
        None => p.clone(),
    }
}

/// The parent path, as `spec_parent` states it.
pub fn parent_of(p: &String) -> (r: Option<String>)
    ensures
        match r {
            Some(q) => spec_parent(p@) == Some(q@),
            None => spec_parent(p@) is None,
        },
{
    let n = p.as_str().unicode_len();
    if n == 0 {
        return None;
    }
    if n == 1 && p.as_str().get_char(0) == '/' {
        proof {
            assert(p@ =~= seq!['/']);
        }
        return None;
    }
    proof {
        assert(!(p@ =~= seq!['/']));
        lemma_last_index_of_bounds(p@, '/');
    }
    match last_char_index(p.as_str(), '/') {
        Some(i) => {
            if i > 0 {
                let sub = p.as_str().substring_char(0, i);
                proof {
                    assert(p@.subrange(0, i as int) =~= p@.take(i as int));
                }
                Some(String::from_str(sub))
            } else {
                let root = String::from_str("/");
                proof {
                    reveal_strlit("/");
                    assert(root@ =~= seq!['/']);
                }
                Some(root)
            }
        },
        None => {
            let empty = String::new();
            proof {
                assert(empty@ =~= Seq::<char>::empty());
            }
            Some(empty)
        },
    }
}

/// Character-for-character string equality.
pub fn str_eq(a: &str, b: &str) -> (r: bool)
    ensures
        r == (a@ == b@),
{
    let na = a.unicode_len();
    let nb = b.unicode_len();
    if na != nb {
        return false;
    }
    let mut i: usize = 0;
    while i < na
        invariant
            i <= na,
            na as int == a@.len(),
            na as int == b@.len(),
            forall|j: int| 0 <= j < i ==> a@[j] == b@[j],
        decreases na - i,
    {
        if a.get_char(i) != b.get_char(i) {
            return false;
        }
        i = i + 1;
    }
    proof {
        assert(a@ =~= b@);
    }
    true
}

/// Whether `pre` is a prefix of `a`.
pub fn str_has_prefix(a: &str, pre: &str) -> (r: bool)
    ensures
        r == (a@.len() >= pre@.len() && a@.take(pre@.len() as int) == pre@),
{
    let na = a.unicode_len();
    let np = pre.unicode_len();
    if na < np {
        return false;
    }
    let mut i: usize = 0;
    while i < np
        invariant
            i <= np,
            na as int == a@.len(),
            np as int == pre@.len(),
            np <= na,
            forall|j: int| 0 <= j < i ==> a@[j] == pre@[j],
        decreases np - i,
    {
        if a.get_char(i) != pre.get_char(i) {
            proof {
                assert(a@.take(np as int)[i as int] != pre@[i as int]);
            }
            return false;
        }
        i = i + 1;
    }
    proof {
        assert(a@.take(np as int) =~= pre@);
    }
    true
}

} // verus!
