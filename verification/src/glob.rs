use vstd::prelude::*;

use crate::text::str_to_chars;

verus! {

// A file-name pattern: `*` matches any character sequence, `?` matches
// exactly one character, and every other character matches itself. A name
// matches when the pattern is found anywhere within it (an unanchored
// match, the way the pattern is tested against each file name).

/// Does the pattern match some prefix of `s`?
pub open spec fn glob_prefix(p: Seq<char>, s: Seq<char>) -> bool
    decreases p.len(), s.len(),
{
    if p.len() == 0 {
        true
    } else if p[0] == '*' {
        glob_prefix(p.drop_first(), s) || (s.len() > 0 && glob_prefix(p, s.drop_first()))
    } else if s.len() == 0 {
        false
    } else if p[0] == '?' || p[0] == s[0] {
        glob_prefix(p.drop_first(), s.drop_first())
    } else {
        false
    }
}

/// Does the pattern match starting at any position of `s`?
pub open spec fn glob_within(p: Seq<char>, s: Seq<char>) -> bool
    decreases s.len(),
{
    glob_prefix(p, s) || (s.len() > 0 && glob_within(p, s.drop_first()))
}

fn glob_prefix_at(p: &Vec<char>, pi: usize, s: &Vec<char>, si: usize) -> (r: bool)
    requires
        pi <= p@.len(),
        si <= s@.len(),
    ensures
        r == glob_prefix(p@.skip(pi as int), s@.skip(si as int)),
    decreases p@.len() - pi, s@.len() - si,
{
    if pi == p.len() {
        proof {
            assert(p@.skip(pi as int).len() == 0);
        }
        return true;
    }
    let pc = p[pi];
    proof {
        assert(p@.skip(pi as int)[0] == pc);
        assert(p@.skip(pi as int).drop_first() =~= p@.skip(pi as int + 1));
    }
    if pc == '*' {
        if glob_prefix_at(p, pi + 1, s, si) {
            return true;
        }
        if si < s.len() {
            proof {
                assert(s@.skip(si as int).drop_first() =~= s@.skip(si as int + 1));
            }
            return glob_prefix_at(p, pi, s, si + 1);
        }
        return false;
    }
    if si == s.len() {
        return false;
    }
    let sc = s[si];
    proof {
        assert(s@.skip(si as int)[0] == sc);
        assert(s@.skip(si as int).drop_first() =~= s@.skip(si as int + 1));
    }
    if pc == '?' || pc == sc {
        return glob_prefix_at(p, pi + 1, s, si + 1);
    }
    false
}

fn glob_within_at(p: &Vec<char>, s: &Vec<char>, si: usize) -> (r: bool)
    requires
        si <= s@.len(),
    ensures
        r == glob_within(p@, s@.skip(si as int)),
    decreases s@.len() - si,
{
    proof {
        assert(p@.skip(0) =~= p@);
    }
    if glob_prefix_at(p, 0, s, si) {
        return true;
    }
    if si < s.len() {
        proof {
            assert(s@.skip(si as int).drop_first() =~= s@.skip(si as int + 1));
        }
        return glob_within_at(p, s, si + 1);
    }
    false
}

/// Does the pattern match anywhere within the name?
pub fn glob_matches(pattern: &str, name: &str) -> (r: bool)
    ensures
        r == glob_within(pattern@, name@),
{
    let p = str_to_chars(pattern);
    let s = str_to_chars(name);
    proof {
        assert(s@.skip(0) =~= s@);
    }
    glob_within_at(&p, &s, 0)
}

} // verus!
