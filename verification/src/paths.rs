//! Unix paths as strings: joining a name onto a directory and taking the last
//! name of a path, as `Path::join` and `Path::file_name` do.
use vstd::prelude::*;
use crate::text::{chars_of, string_of};

verus! {

/// `base` joined with `name`: `name` itself when it is absolute, else `name`
/// after `base` with one `/` between them unless `base` is empty or already
/// ends with `/`.
pub open spec fn joined(base: Seq<char>, name: Seq<char>) -> Seq<char> {
    if name.len() > 0 && name[0] == '/' {
        name
    } else if base.len() == 0 || base.last() == '/' {
        base + name
    } else {
        base + seq!['/'] + name
    }
}

/// Index of the last occurrence of `c` in `s`, or -1.
pub open spec fn last_index_of(s: Seq<char>, c: char) -> int
    decreases s.len(),
{
    if s.len() == 0 {
        -1
    } else if s.last() == c {
        s.len() - 1
    } else {
        last_index_of(s.drop_last(), c)
    }
}

/// The last name of a path: its last component once empty components and `.`
/// are set aside; `None` for a path with no name in it (empty, `/`, `.`) or one
/// that ends in `..`.
pub open spec fn file_name(p: Seq<char>) -> Option<Seq<char>>
    decreases p.len(),
{
    let k = last_index_of(p, '/');
    let seg = p.subrange(k + 1, p.len() as int);
    if seg.len() == 0 || seg == seq!['.'] {
        if 0 <= k < p.len() {
            file_name(p.take(k))
        } else {
            None
        }
    } else if seg == seq!['.', '.'] {
        None
    } else {
        Some(seg)
    }
}

pub proof fn lemma_last_index_at(s: Seq<char>, c: char, k: int)
    requires
        -1 <= k < s.len(),
        forall|j: int| k < j < s.len() ==> s[j] != c,
        k >= 0 ==> s[k] == c,
    ensures
        last_index_of(s, c) == k,
    decreases s.len(),
{
    if s.len() > 0 && k < s.len() - 1 {
        let p = s.drop_last();
        assert forall|j: int| k < j < p.len() implies p[j] != c by {
            assert(p[j] == s[j]);
        }
        lemma_last_index_at(p, c, k);
    }
}

/// A plain name joined onto a directory is the last name of the path made:
/// the server that `join_path(directory, name)` holds is listed as `name`.
/// The name must be nonempty and hold no `/`, and not be `.` or `..`.
pub proof fn lemma_file_name_of_joined(base: Seq<char>, name: Seq<char>)
    requires
        name.len() > 0,
        forall|j: int| 0 <= j < name.len() ==> name[j] != '/',
        name != seq!['.'],
        name != seq!['.', '.'],
    ensures
        file_name(joined(base, name)) == Some(name),
{
    let p = joined(base, name);
    let prefix = if base.len() == 0 || base.last() == '/' {
        base
    } else {
        base + seq!['/']
    };
    assert(p =~= prefix + name);
    let k = prefix.len() - 1;
    assert forall|j: int| k < j < p.len() implies p[j] != '/' by {
        assert(p[j] == name[j - prefix.len()]);
    }
    if k >= 0 {
        assert(p[k] == prefix.last());
    }
    lemma_last_index_at(p, '/', k);
    assert(p.subrange(k + 1, p.len() as int) =~= name);
}

/// `name` joined onto the directory `base`, as `Path::new(base).join(name)`.
pub fn join_path(base: &str, name: &str) -> (p: String)
    ensures
        p@ == joined(base@, name@),
{
    let b = chars_of(base);
    let n = chars_of(name);
    if n.len() > 0 && n[0] == '/' {
        return name.to_owned();
    }
    let mut p = base.to_owned();
    if !(b.len() == 0 || b[b.len() - 1] == '/') {
        p.push('/');
    }
    p.append(name);
    p
}

/// The last name of a path, as `Path::file_name` gives it.
pub fn file_name_of(path: &str) -> (r: Option<String>)
    ensures
        match file_name(path@) {
            Some(n) => r matches Some(s) && s@ == n,
            None => r is None,
        },
{
    let chars = chars_of(path);
    let ghost p = chars@;
    let mut end = chars.len();
    proof {
        assert(p.take(end as int) =~= p);
    }
    loop
        invariant
            p == chars@,
            p == path@,
            end <= p.len(),
            file_name(p) == file_name(p.take(end as int)),
        decreases end,
    {
        let ghost q = p.take(end as int);
        let mut k = end;
        while k > 0 && chars[k - 1] != '/'
            invariant
                k <= end <= chars@.len(),
                forall|j: int| k <= j < end ==> chars@[j] != '/',
            decreases k,
        {
            k = k - 1;
        }
        proof {
            assert forall|j: int| k - 1 < j < q.len() implies q[j] != '/' by {
                assert(q[j] == p[j]);
            }
            if k > 0 {
                assert(q[k - 1] == p[k - 1]);
            }
            lemma_last_index_at(q, '/', k - 1);
            assert(q.subrange(k as int, q.len() as int) =~= p.subrange(k as int, end as int));
        }
        let len = end - k;
        let is_dot = len == 1 && chars[k] == '.';
        let is_dot_dot = len == 2 && chars[k] == '.' && chars[k + 1] == '.';
        proof {
            let seg = p.subrange(k as int, end as int);
            if len == 1 {
                assert(seg[0] == p[k as int]);
                assert(is_dot <==> seg =~= seq!['.']);
            } else {
                assert(seg.len() != 1);
                assert(!is_dot && seg != seq!['.']);
            }
            if len == 2 {
                assert(seg[0] == p[k as int] && seg[1] == p[k + 1]);
                assert(is_dot_dot <==> seg =~= seq!['.', '.']);
            } else {
                assert(seg.len() != 2);
                assert(!is_dot_dot && seg != seq!['.', '.']);
            }
        }
        if len == 0 || is_dot {
            if k > 0 {
                proof {
                    assert(q.take(k - 1) =~= p.take(k - 1));
                }
                end = k - 1;
            } else {
                return None;
            }
        } else if is_dot_dot {
            return None;
        } else {
            return Some(string_of(&chars, k, end));
        }
    }
}

} // verus!
