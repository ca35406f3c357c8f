use vstd::prelude::*;

verus! {

/// A name is hidden when it starts with `.`, has more than one character,
/// and is not `..`.
pub open spec fn hidden_name(s: Seq<char>) -> bool {
    s.len() > 1 && s[0] == '.' && s != ".."@
}

/// True when a file name counts as hidden: it starts with a dot, is longer
/// than one character, and is not the special parent entry `..`.
pub fn is_hidden_name(file_name: &str) -> (r: bool)
    ensures
        r == hidden_name(file_name@),
{
    let n = file_name.unicode_len();
    if n <= 1 {
        return false;
    }
    if file_name.get_char(0) != '.' {
        return false;
    }
    proof {
        reveal_strlit("..");
    }
    if n == 2 && file_name.get_char(1) == '.' {
        proof {
            assert(file_name@ =~= ".."@);
        }
        false
    } else {
        true
    }
}

/// Path `a` lies strictly above path `b`: `b` continues `a` past a separator.
pub open spec fn is_strict_ancestor(a: Seq<char>, b: Seq<char>) -> bool {
    a.len() < b.len() && b.subrange(0, a.len() as int) == a && b[a.len() as int] == '/'
}

pub open spec fn is_ancestor_or_self(a: Seq<char>, b: Seq<char>) -> bool {
    a == b || is_strict_ancestor(a, b)
}

/// The position of the last separator, or -1 when there is none.
pub open spec fn last_slash(s: Seq<char>) -> int
    decreases s.len(),
{
    if s.len() == 0 {
        -1
    } else if s[s.len() - 1] == '/' {
        s.len() - 1
    } else {
        last_slash(s.drop_last())
    }
}

/// The directory component of a path: everything before the last separator.
pub open spec fn parent_seq(s: Seq<char>) -> Option<Seq<char>> {
    if last_slash(s) < 0 {
        None
    } else {
        Some(s.subrange(0, last_slash(s)))
    }
}

/// The base name of a path: everything after the last separator.
pub open spec fn base_name(s: Seq<char>) -> Seq<char> {
    if last_slash(s) < 0 {
        s
    } else {
        s.subrange(last_slash(s) + 1, s.len() as int)
    }
}

pub proof fn lemma_last_slash(s: Seq<char>)
    ensures
        -1 <= last_slash(s) < s.len(),
        last_slash(s) >= 0 ==> s[last_slash(s)] == '/',
        forall|k: int| last_slash(s) < k < s.len() ==> s[k] != '/',
    decreases s.len(),
{
    if s.len() > 0 && s[s.len() - 1] != '/' {
        lemma_last_slash(s.drop_last());
        assert forall|k: int| last_slash(s) < k < s.len() implies s[k] != '/' by {
            if k < s.len() - 1 {
                assert(s.drop_last()[k] != '/');
            }
        }
        if last_slash(s) >= 0 {
            assert(s[last_slash(s)] == s.drop_last()[last_slash(s)]);
        }
    }
}

/// A separator position below which no later separator occurs pins down
/// `last_slash`.
pub proof fn lemma_last_slash_at(s: Seq<char>, j: int)
    requires
        0 <= j < s.len(),
        s[j] == '/',
        forall|k: int| j < k < s.len() ==> s[k] != '/',
    ensures
        last_slash(s) == j,
{
    lemma_last_slash(s);
    if last_slash(s) < j {
        assert(s[j] != '/');
    } else if last_slash(s) > j {
        assert(s[last_slash(s)] != '/');
    }
}

pub proof fn lemma_parent_is_strict_ancestor(s: Seq<char>)
    requires
        parent_seq(s) is Some,
    ensures
        is_strict_ancestor(parent_seq(s).unwrap(), s),
        parent_seq(s).unwrap().len() < s.len(),
    decreases s.len(),
{
    lemma_last_slash(s);
    let p = parent_seq(s).unwrap();
    assert(s.subrange(0, p.len() as int) =~= p);
}

/// Every strict ancestor of `s` is an ancestor of, or equal to, the parent
/// of `s`.
pub proof fn lemma_ancestor_below_parent(a: Seq<char>, s: Seq<char>)
    requires
        is_strict_ancestor(a, s),
    ensures
        parent_seq(s) is Some,
        is_ancestor_or_self(a, parent_seq(s).unwrap()),
{
    lemma_last_slash(s);
    let ls = last_slash(s);
    assert(ls >= a.len()) by {
        if ls < a.len() {
            assert(s[a.len() as int] != '/');
        }
    }
    let p = parent_seq(s).unwrap();
    if ls == a.len() {
        assert(p =~= a);
    } else {
        assert(p.subrange(0, a.len() as int) =~= a) by {
            assert forall|k: int| 0 <= k < a.len() implies p.subrange(0, a.len() as int)[k]
                == a[k] by {
                assert(p[k] == s[k]);
                assert(s.subrange(0, a.len() as int)[k] == s[k]);
            }
        }
        assert(p[a.len() as int] == s[a.len() as int]);
        assert(is_strict_ancestor(a, p));
    }
}

pub proof fn lemma_ancestor_transitive(a: Seq<char>, b: Seq<char>, c: Seq<char>)
    requires
        is_ancestor_or_self(a, b),
        is_ancestor_or_self(b, c),
    ensures
        is_ancestor_or_self(a, c),
{
    if a != b && b != c {
        assert(c.subrange(0, a.len() as int) =~= a) by {
            assert forall|k: int| 0 <= k < a.len() implies c.subrange(0, a.len() as int)[k]
                == a[k] by {
                assert(c.subrange(0, b.len() as int)[k] == c[k]);
                assert(b.subrange(0, a.len() as int)[k] == b[k]);
            }
        }
        assert(c[a.len() as int] == b[a.len() as int]) by {
            assert(c.subrange(0, b.len() as int)[a.len() as int] == c[a.len() as int]);
        }
    }
}

/// Two ancestors of one path are comparable: the shorter lies above the
/// longer.
pub proof fn lemma_ancestors_chain(a: Seq<char>, b: Seq<char>, d: Seq<char>)
    requires
        is_ancestor_or_self(a, d),
        is_ancestor_or_self(b, d),
        a.len() <= b.len(),
    ensures
        is_ancestor_or_self(a, b),
{
    if a != d && b != d && a != b {
        assert(b.subrange(0, a.len() as int) =~= a) by {
            assert forall|k: int| 0 <= k < a.len() implies b.subrange(0, a.len() as int)[k]
                == a[k] by {
                assert(b.subrange(0, b.len() as int) =~= b);
                assert(d.subrange(0, b.len() as int)[k] == d[k]);
                assert(d.subrange(0, a.len() as int)[k] == d[k]);
            }
        }
        if a.len() == b.len() {
            assert(a =~= b);
        } else {
            assert(b[a.len() as int] == d[a.len() as int]) by {
                assert(d.subrange(0, b.len() as int)[a.len() as int] == d[a.len() as int]);
            }
        }
    }
}

/// The directory component of a path, when it has one.
pub fn parent_of(p: &str) -> (r: Option<String>)
    ensures
        r is Some ==> parent_seq(p@) == Some(r.unwrap()@),
        r is None ==> parent_seq(p@) is None,
{
    let n = p.unicode_len();
    let mut i: usize = n;
    while i > 0
        invariant
            n == p@.len(),
            i <= n,
            forall|k: int| i <= k < n ==> p@[k] != '/',
        decreases i,
    {
        if p.get_char(i - 1) == '/' {
            proof {
                lemma_last_slash_at(p@, i - 1);
            }
            return Some(p.substring_char(0, i - 1).to_owned());
        }
        i -= 1;
    }
    proof {
        lemma_last_slash(p@);
        if last_slash(p@) >= 0 {
            assert(p@[last_slash(p@)] != '/');
        }
    }
    None
}

/// The base name of a path: everything after its last separator.
pub fn file_name_of(p: &str) -> (r: String)
    ensures
        r@ == base_name(p@),
{
    let n = p.unicode_len();
    let mut i: usize = n;
    while i > 0
        invariant
            n == p@.len(),
            i <= n,
            forall|k: int| i <= k < n ==> p@[k] != '/',
        decreases i,
    {
        if p.get_char(i - 1) == '/' {
            proof {
                lemma_last_slash_at(p@, i - 1);
            }
            return p.substring_char(i, n).to_owned();
        }
        i -= 1;
    }
    proof {
        lemma_last_slash(p@);
        if last_slash(p@) >= 0 {
            assert(p@[last_slash(p@)] != '/');
        }
    }
    p.to_owned()
}

/// Joins two path fragments with a separator.
pub fn join_path(a: &str, b: &str) -> (r: String)
    ensures
        r@ == a@ + "/"@ + b@,
{
    let mut s = a.to_owned();
    s.append("/");
    s.append(b);
    s
}

/// A relative path needs a leading `./` unless it is already anchored: it
/// starts at the root, is the current directory, or already carries the
/// prefix.
pub open spec fn needs_cur_dir_prefix(s: Seq<char>) -> bool {
    &&& !(s.len() > 0 && s[0] == '/')
    &&& s != "."@
    &&& !(s.len() >= 2 && s[0] == '.' && s[1] == '/')
}

/// Anchors a relative path with `./`; an already anchored path is returned
/// unchanged.
pub fn supply_current_dir_prefix(path_name: &str) -> (r: String)
    requires
        path_name@.len() > 0,
    ensures
        r@ == if needs_cur_dir_prefix(path_name@) {
            "./"@ + path_name@
        } else {
            path_name@
        },
{
    let n = path_name.unicode_len();
    let c0 = path_name.get_char(0);
    proof {
        reveal_strlit(".");
        reveal_strlit("./");
    }
    if c0 == '/' {
        return path_name.to_owned();
    }
    if c0 == '.' {
        if n == 1 {
            proof {
                assert(path_name@ =~= "."@);
            }
            return path_name.to_owned();
        }
        if path_name.get_char(1) == '/' {
            return path_name.to_owned();
        }
    }
    proof {
        assert(path_name@ != "."@) by {
            if path_name@ == "."@ {
                assert(path_name@[0] == '.' && path_name@.len() == 1);
            }
        }
    }
    let mut s = "./".to_owned();
    s.append(path_name);
    s
}

/// The path with every trailing separator removed.
pub open spec fn trim_trailing_separators(s: Seq<char>) -> Seq<char>
    decreases s.len(),
{
    if s.len() > 0 && s[s.len() - 1] == '/' {
        trim_trailing_separators(s.drop_last())
    } else {
        s
    }
}

/// Removes every trailing separator.
pub fn trim_end_separator(path_name: &str) -> (r: String)
    ensures
        r@ == trim_trailing_separators(path_name@),
{
    let n = path_name.unicode_len();
    let mut i: usize = n;
    proof {
        assert(path_name@.take(n as int) =~= path_name@);
    }
    while i > 0 && path_name.get_char(i - 1) == '/'
        invariant
            n == path_name@.len(),
            i <= n,
            trim_trailing_separators(path_name@) == trim_trailing_separators(
                path_name@.take(i as int),
            ),
        decreases i,
    {
        proof {
            assert(path_name@.take(i as int).drop_last() =~= path_name@.take(i - 1));
            assert(path_name@.take(i as int)[i - 1] == path_name@[i - 1]);
        }
        i -= 1;
    }
    proof {
        if i > 0 {
            assert(path_name@.take(i as int)[i - 1] == path_name@[i - 1]);
        }
        assert(trim_trailing_separators(path_name@.take(i as int)) == path_name@.take(i as int));
    }
    path_name.substring_char(0, i).to_owned()
}

/// Whether an access time falls inside the moratorium that ends now.
pub fn is_recently_accessed(accessed_time: i64, now: i64, moratorium_seconds: i64) -> (r: bool)
    requires
        i64::MIN <= now - moratorium_seconds <= i64::MAX,
    ensures
        r == (accessed_time > now - moratorium_seconds),
{
    accessed_time > now - moratorium_seconds
}

} // verus!
