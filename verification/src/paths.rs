use vstd::prelude::*;

use crate::text::{chars_to_string, str_to_chars};
use crate::tree::{after_last_slash, strip_trailing_slashes};

verus! {

// How the positional arguments become a starting directory and a pattern:
// an argument with a wildcard contributes its file-name part as the
// pattern (and, when it also names a directory, that directory); an
// argument without a wildcard names the starting directory. The last
// argument of each kind wins; the default directory is the current one.

pub open spec fn contains_wildcard(s: Seq<char>) -> bool {
    exists|i: int| 0 <= i < s.len() && ((#[trigger] s[i]) == '*' || s[i] == '?')
}

pub open spec fn has_slash(s: Seq<char>) -> bool {
    exists|i: int| 0 <= i < s.len() && (#[trigger] s[i]) == '/'
}

/// One argument folded into the (directory, pattern) pair.
pub open spec fn process_step(dir: Seq<char>, pat: Seq<char>, p: Seq<char>) -> (Seq<char>, Seq<
    char,
>) {
    if contains_wildcard(p) {
        if has_slash(p) {
            let pp = after_last_slash(p);
            if pp.len() > 0 {
                let dp = p.take(p.len() - pp.len());
                if dp != seq!['.', '/'] && dp != seq!['/'] {
                    (strip_trailing_slashes(dp), pp)
                } else {
                    (dir, pp)
                }
            } else {
                (dir, pat)
            }
        } else {
            (dir, p)
        }
    } else {
        (p, pat)
    }
}

pub open spec fn process_fold(paths: Seq<String>) -> (Seq<char>, Seq<char>)
    decreases paths.len(),
{
    if paths.len() == 0 {
        (seq!['.'], Seq::<char>::empty())
    } else {
        let prev = process_fold(paths.drop_last());
        process_step(prev.0, prev.1, paths.last()@)
    }
}

/// What `process_paths` returns: the folded pair, except that a single
/// argument without a wildcard is always taken as the directory.
pub open spec fn process_paths_spec(paths: Seq<String>) -> (Seq<char>, Seq<char>) {
    let folded = process_fold(paths);
    if folded.0 == seq!['.'] && folded.1.len() > 0 && paths.len() == 1 {
        folded
    } else if folded.1.len() == 0 && paths.len() == 1 {
        (paths[0]@, folded.1)
    } else {
        folded
    }
}

fn scan_wildcard(chars: &Vec<char>) -> (r: bool)
    ensures
        r == contains_wildcard(chars@),
{
    let mut i: usize = 0;
    while i < chars.len()
        invariant
            i <= chars@.len(),
            forall|k: int| 0 <= k < i ==> (#[trigger] chars@[k]) != '*' && chars@[k] != '?',
        decreases chars@.len() - i,
    {
        if chars[i] == '*' || chars[i] == '?' {
            return true;
        }
        i = i + 1;
    }
    false
}

/// Split the positional arguments into a starting directory and a pattern.
pub fn process_paths(paths: &Vec<String>) -> (r: (String, String))
    ensures
        r.0@ == process_paths_spec(paths@).0,
        r.1@ == process_paths_spec(paths@).1,
{
    let mut dir: String = ".".to_owned();
    let mut pat: String = String::new();
    proof {
        reveal_strlit(".");
        assert(dir@ =~= seq!['.']);
        assert(paths@.subrange(0, 0) =~= Seq::<String>::empty());
    }
    let mut i: usize = 0;
    while i < paths.len()
        invariant
            i <= paths@.len(),
            dir@ == process_fold(paths@.subrange(0, i as int)).0,
            pat@ == process_fold(paths@.subrange(0, i as int)).1,
        decreases paths@.len() - i,
    {
        proof {
            assert(paths@.subrange(0, i + 1 as int).drop_last() =~= paths@.subrange(0, i as int));
            assert(paths@.subrange(0, i + 1 as int).last() == paths@[i as int]);
        }
        let p = str_to_chars(paths[i].as_str());
        if scan_wildcard(&p) {
            // find the last separator
            let mut j: usize = p.len();
            while j > 0 && p[j - 1] != '/'
                invariant
                    j <= p@.len(),
                    forall|k: int| j <= k < p@.len() ==> (#[trigger] p@[k]) != '/',
                decreases j,
            {
                j = j - 1;
            }
            if j > 0 {
                proof {
                    assert(p@[j - 1] == '/');
                    assert(has_slash(p@));
                    crate::tree::lemma_after_last_slash_at(p@, j as int);
                }
                if j < p.len() {
                    // a nonempty file-name part: it becomes the pattern
                    let mut name_chars: Vec<char> = Vec::new();
                    let mut k = j;
                    while k < p.len()
                        invariant
                            j <= k <= p@.len(),
                            name_chars@ =~= p@.subrange(j as int, k as int),
                        decreases p@.len() - k,
                    {
                        name_chars.push(p[k]);
                        k = k + 1;
                    }
                    proof {
                        assert(name_chars@ =~= p@.skip(j as int));
                        assert(after_last_slash(p@) == p@.skip(j as int));
                    }
                    pat = chars_to_string(&name_chars);
                    // the directory part, unless it only names the root or here
                    let ghost dp = p@.take(p@.len() - after_last_slash(p@).len());
                    proof {
                        assert(dp =~= p@.subrange(0, j as int));
                    }
                    let is_dot_slash = j == 2 && p[0] == '.' && p[1] == '/';
                    let is_root = j == 1 && p[0] == '/';
                    proof {
                        if is_dot_slash {
                            assert(dp =~= seq!['.', '/']);
                        }
                        if is_root {
                            assert(dp =~= seq!['/']);
                        }
                        if !is_dot_slash && dp == seq!['.', '/'] {
                            assert(j == 2 && p@[0] == '.' && p@[1] == '/');
                        }
                        if !is_root && dp == seq!['/'] {
                            assert(j == 1 && p@[0] == '/');
                        }
                    }
                    if !is_dot_slash && !is_root {
                        let mut t: Vec<char> = Vec::new();
                        let mut k2: usize = 0;
                        while k2 < j
                            invariant
                                k2 <= j <= p@.len(),
                                t@ =~= p@.subrange(0, k2 as int),
                            decreases j - k2,
                        {
                            t.push(p[k2]);
                            k2 = k2 + 1;
                        }
                        proof {
                            assert(t@ =~= dp);
                        }
                        while t.len() > 0 && t[t.len() - 1] == '/'
                            invariant
                                strip_trailing_slashes(t@) == strip_trailing_slashes(dp),
                            decreases t@.len(),
                        {
                            proof {
                                assert(t@.drop_last() =~= t@.subrange(0, t@.len() - 1));
                            }
                            t.pop();
                        }
                        proof {
                            assert(strip_trailing_slashes(t@) == t@);
                        }
                        dir = chars_to_string(&t);
                    }
                }
                // an empty file-name part changes nothing
            } else {
                // no separator: the whole argument is the pattern
                proof {
                    assert(!has_slash(p@));
                }
                pat = chars_to_string(&p);
            }
        } else {
            // no wildcard: the argument names the directory
            dir = chars_to_string(&p);
        }
        i = i + 1;
    }
    proof {
        assert(paths@.subrange(0, i as int) =~= paths@);
        reveal_strlit(".");
    }
    // a single argument without a wildcard is the directory, whatever it is
    if paths.len() == 1 && pat.unicode_len() == 0 {
        let d = paths[0].clone();
        return (d, pat);
    }
    (dir, pat)
}

} // verus!
