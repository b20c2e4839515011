//! Slash-separated paths as text: joining, parents, extensions.
use vstd::prelude::*;
use crate::text::{join, slice};

verus! {

/// `Path::join`: an absolute `b` replaces `a`; otherwise `b` follows `a` after one `/`.
pub open spec fn path_join(a: Seq<char>, b: Seq<char>) -> Seq<char> {
    if b.len() > 0 && b[0] == '/' {
        b
    } else if a.len() == 0 {
        b
    } else if a.last() == '/' {
        a + b
    } else {
        a + seq!['/'] + b
    }
}

/// The index of the last `/` in `p`, if any.
pub open spec fn last_slash(p: Seq<char>) -> Option<int>
    decreases p.len(),
{
    if p.len() == 0 {
        None
    } else if p.last() == '/' {
        Some(p.len() - 1)
    } else {
        last_slash(p.drop_last())
    }
}

pub proof fn lemma_last_slash(p: Seq<char>)
    ensures
        last_slash(p) matches Some(i) ==> 0 <= i < p.len() && p[i] == '/' && forall|k: int|
            i < k < p.len() ==> p[k] != '/',
        last_slash(p) is None ==> forall|k: int| 0 <= k < p.len() ==> p[k] != '/',
    decreases p.len(),
{
    if p.len() > 0 && p.last() != '/' {
        lemma_last_slash(p.drop_last());
        assert forall|k: int| 0 <= k < p.len() - 1 implies p[k] == p.drop_last()[k] by {}
    }
}

/// `Path::parent` for paths without trailing slashes: everything before the last `/`
/// (the root `/` for a top-level absolute path, empty for a bare name); none for the
/// empty path and for `/` itself.
pub open spec fn path_parent(p: Seq<char>) -> Option<Seq<char>> {
    if p.len() == 0 || p == seq!['/'] {
        None
    } else {
        match last_slash(p) {
            None => Some(Seq::empty()),
            Some(i) => if i == 0 {
                Some(seq!['/'])
            } else {
                Some(p.subrange(0, i))
            },
        }
    }
}

/// The last `/` part of `p`.
pub open spec fn file_name(p: Seq<char>) -> Seq<char> {
    match last_slash(p) {
        None => p,
        Some(i) => p.subrange(i + 1, p.len() as int),
    }
}

/// `Path::extension`: the text after the last `.` of the file name, unless that dot
/// starts the name.
pub open spec fn extension(p: Seq<char>) -> Option<Seq<char>> {
    let name = file_name(p);
    match last_dot(name) {
        None => None,
        Some(i) => if i == 0 {
            None
        } else {
            Some(name.subrange(i + 1, name.len() as int))
        },
    }
}

/// The index of the last `.` in `p`, if any.
pub open spec fn last_dot(p: Seq<char>) -> Option<int>
    decreases p.len(),
{
    if p.len() == 0 {
        None
    } else if p.last() == '.' {
        Some(p.len() - 1)
    } else {
        last_dot(p.drop_last())
    }
}

pub proof fn lemma_last_dot(p: Seq<char>)
    ensures
        last_dot(p) matches Some(i) ==> 0 <= i < p.len() && p[i] == '.' && forall|k: int|
            i < k < p.len() ==> p[k] != '.',
        last_dot(p) is None ==> forall|k: int| 0 <= k < p.len() ==> p[k] != '.',
    decreases p.len(),
{
    if p.len() > 0 && p.last() != '.' {
        lemma_last_dot(p.drop_last());
        assert forall|k: int| 0 <= k < p.len() - 1 implies p[k] == p.drop_last()[k] by {}
    }
}

/// `Path::with_extension`: the path with its extension replaced by `ext`.
pub open spec fn with_extension(p: Seq<char>, ext: Seq<char>) -> Seq<char> {
    match extension(p) {
        None => p + seq!['.'] + ext,
        Some(old) => p.subrange(0, p.len() - old.len()) + ext,
    }
}

pub fn find_last(p: &Vec<char>, c: char) -> (r: Option<usize>)
    ensures
        r matches Some(i) ==> i < p@.len() && p@[i as int] == c && forall|k: int| i < k < p@.len() ==> p@[k] != c,
        r is None ==> forall|k: int| 0 <= k < p@.len() ==> p@[k] != c,
{
    let mut i = p.len();
    while i > 0
        invariant
            i <= p@.len(),
            forall|k: int| i <= k < p@.len() ==> p@[k] != c,
        decreases i,
    {
        if p[i - 1] == c {
            return Some(i - 1);
        }
        i = i - 1;
    }
    None
}

pub proof fn lemma_last_slash_is(p: Seq<char>, r: Option<usize>)
    requires
        r matches Some(i) ==> i < p.len() && p[i as int] == '/' && forall|k: int| i < k < p.len() ==> p[k] != '/',
        r is None ==> forall|k: int| 0 <= k < p.len() ==> p[k] != '/',
    ensures
        last_slash(p) == (match r { Some(i) => Some(i as int), None => None }),
{
    lemma_last_slash(p);
    if let Some(i) = r {
        if let Some(j) = last_slash(p) {
            assert(!(i < j) && !(j < i as int));
        }
    } else {
        if let Some(j) = last_slash(p) {
            assert(p[j] == '/');
        }
    }
}

pub proof fn lemma_last_dot_is(p: Seq<char>, r: Option<usize>)
    requires
        r matches Some(i) ==> i < p.len() && p[i as int] == '.' && forall|k: int| i < k < p.len() ==> p[k] != '.',
        r is None ==> forall|k: int| 0 <= k < p.len() ==> p[k] != '.',
    ensures
        last_dot(p) == (match r { Some(i) => Some(i as int), None => None }),
{
    lemma_last_dot(p);
    if let Some(i) = r {
        if let Some(j) = last_dot(p) {
            assert(!(i < j) && !(j < i as int));
        }
    } else {
        if let Some(j) = last_dot(p) {
            assert(p[j] == '.');
        }
    }
}

pub fn join_path(a: &Vec<char>, b: &Vec<char>) -> (r: Vec<char>)
    ensures
        r@ == path_join(a@, b@),
{
    if b.len() > 0 && b[0] == '/' {
        crate::text::copy(b)
    } else if a.len() == 0 {
        crate::text::copy(b)
    } else if a[a.len() - 1] == '/' {
        join(a, b)
    } else {
        let mut s = crate::text::copy(a);
        s.push('/');
        let r = join(&s, b);
        assert(r@ =~= a@ + seq!['/'] + b@);
        r
    }
}

pub fn parent_path(p: &Vec<char>) -> (r: Option<Vec<char>>)
    ensures
        r matches Some(v) ==> path_parent(p@) == Some(v@),
        r is None ==> path_parent(p@) is None,
{
    if p.len() == 0 || (p.len() == 1 && p[0] == '/') {
        proof {
            if p@.len() == 1 {
                assert(p@ =~= seq!['/']);
            }
        }
        return None;
    }
    proof {
        if p@ == seq!['/'] {
            assert(p@.len() == 1);
        }
    }
    let last = find_last(p, '/');
    proof {
        lemma_last_slash_is(p@, last);
    }
    match last {
        None => Some(Vec::new()),
        Some(i) => if i == 0 {
            let mut v = Vec::new();
            v.push('/');
            Some(v)
        } else {
            Some(slice(p, 0, i))
        },
    }
}

pub fn file_name_of(p: &Vec<char>) -> (r: Vec<char>)
    ensures
        r@ == file_name(p@),
{
    let last = find_last(p, '/');
    proof {
        lemma_last_slash_is(p@, last);
    }
    match last {
        None => crate::text::copy(p),
        Some(i) => {
            let n = p.len();
            assert(i < n);
            slice(p, i + 1, n)
        },
    }
}

pub fn extension_of(p: &Vec<char>) -> (r: Option<Vec<char>>)
    ensures
        r matches Some(v) ==> extension(p@) == Some(v@),
        r is None ==> extension(p@) is None,
{
    let name = file_name_of(p);
    let dot = find_last(&name, '.');
    proof {
        lemma_last_dot_is(name@, dot);
    }
    match dot {
        None => None,
        Some(i) => if i == 0 {
            None
        } else {
            Some(slice(&name, i + 1, name.len()))
        },
    }
}

pub fn replace_extension(p: &Vec<char>, ext: &Vec<char>) -> (r: Vec<char>)
    ensures
        r@ == with_extension(p@, ext@),
{
    match extension_of(p) {
        None => {
            let mut s = crate::text::copy(p);
            s.push('.');
            let r = join(&s, ext);
            assert(r@ =~= p@ + seq!['.'] + ext@);
            r
        },
        Some(old) => {
            proof {
                let name = file_name(p@);
                lemma_last_slash(p@);
                lemma_last_dot(name);
                assert(old@.len() <= name.len() <= p@.len());
            }
            let stem = slice(p, 0, p.len() - old.len());
            join(&stem, ext)
        },
    }
}

} // verus!
