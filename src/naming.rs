//! Turning patterns into archive identifiers and file paths into the names
//! they carry inside an archive.

use vstd::prelude::*;
use vstd::std_specs::iter::IteratorSpec;
use crate::text_set::{compare_bytes, lemma_same_bytes_same_text};

verus! {

/// The characters that an archive identifier never holds: the path
/// separator, the dot, the space and the wildcard.
pub open spec fn is_name_breaking(c: char) -> bool {
    c == '/' || c == '.' || c == ' ' || c == '*'
}

/// `p` without `home` in front, when `p` starts with `home`; else `p` itself.
pub open spec fn strip_home(p: Seq<char>, home: Seq<char>) -> Seq<char> {
    if home.is_prefix_of(p) {
        p.subrange(home.len() as int, p.len() as int)
    } else {
        p
    }
}

/// `s` without its first character when that is a separator.
pub open spec fn strip_leading_sep(s: Seq<char>) -> Seq<char> {
    if s.len() > 0 && s[0] == '/' {
        s.subrange(1, s.len() as int)
    } else {
        s
    }
}

/// `s` with every name-breaking character replaced by an underscore.
pub open spec fn underscored(s: Seq<char>) -> Seq<char> {
    Seq::new(s.len(), |i: int| if is_name_breaking(s[i]) { '_' } else { s[i] })
}

/// The archive identifier of a pattern, given the user's home directory.
pub open spec fn archive_name(pattern: Seq<char>, home: Seq<char>) -> Seq<char> {
    underscored(strip_leading_sep(strip_home(pattern, home)))
}

/// `s` without any trailing separators.
pub open spec fn trim_trailing_seps(s: Seq<char>) -> Seq<char>
    decreases s.len(),
{
    if s.len() > 0 && s.last() == '/' {
        trim_trailing_seps(s.drop_last())
    } else {
        s
    }
}

/// The name under which a file is stored in an archive: home-relative, with
/// no leading separator. A path that would leave nothing is stored as `.`,
/// the archive's root.
pub open spec fn in_archive_name(path: Seq<char>, home: Seq<char>) -> Seq<char> {
    let n = strip_leading_sep(strip_home(path, home));
    if n.len() == 0 {
        seq!['.']
    } else {
        n
    }
}

/// Whether `s` starts with `prefix`.
pub fn starts_with(s: &str, prefix: &str) -> (r: bool)
    ensures
        r == prefix@.is_prefix_of(s@),
{
    let mut si = s.chars();
    let mut pi = prefix.chars();
    let ghost mut i: int = 0;
    loop
        invariant
            0 <= i <= prefix@.len(),
            i <= s@.len(),
            si.remaining() == s@.subrange(i, s@.len() as int),
            pi.remaining() == prefix@.subrange(i, prefix@.len() as int),
            prefix@.subrange(0, i) == s@.subrange(0, i),
        decreases prefix@.len() - i,
    {
        match pi.next() {
            None => {
                assert(prefix@ =~= s@.subrange(0, i));
                return true;
            },
            Some(c) => {
                assert(c == prefix@[i]);
                match si.next() {
                    None => {
                        return false;
                    },
                    Some(d) => {
                        assert(d == s@[i]);
                        if c != d {
                            return false;
                        }
                        assert(prefix@.subrange(0, i + 1) =~= prefix@.subrange(0, i).push(c));
                        assert(s@.subrange(0, i + 1) =~= s@.subrange(0, i).push(d));
                        proof {
                            i = i + 1;
                        }
                    },
                }
            },
        }
    }
}

/// Whether two strings hold the same characters.
pub fn same_text(a: &str, b: &str) -> (r: bool)
    ensures
        r == (a@ == b@),
{
    let same = compare_bytes(a.as_bytes(), b.as_bytes()) == 0;
    proof {
        if same {
            lemma_same_bytes_same_text(a@, b@);
        }
    }
    same
}

/// The part of `p` left once `home` is taken off its front.
fn after_home<'a>(p: &'a str, home: &str) -> (r: &'a str)
    ensures
        r@ == strip_home(p@, home@),
{
    if starts_with(p, home) {
        let n = p.unicode_len();
        let m = home.unicode_len();
        p.substring_char(m, n)
    } else {
        p
    }
}

/// The part of `s` left once one leading separator is taken off.
fn after_leading_sep<'a>(s: &'a str) -> (r: &'a str)
    ensures
        r@ == strip_leading_sep(s@),
{
    let n = s.unicode_len();
    if n > 0 && s.get_char(0) == '/' {
        s.substring_char(1, n)
    } else {
        s
    }
}

/// Trims every trailing separator from a pattern as given by the user.
pub fn trim_pattern(raw: &str) -> (r: &str)
    ensures
        r@ == trim_trailing_seps(raw@),
{
    let n = raw.unicode_len();
    let mut end: usize = n;
    assert(raw@.subrange(0, n as int) =~= raw@);
    while end > 0 && raw.get_char(end - 1) == '/'
        invariant
            n == raw@.len(),
            end <= n,
            trim_trailing_seps(raw@.subrange(0, end as int)) == trim_trailing_seps(raw@),
        decreases end,
    {
        assert(raw@.subrange(0, end as int).drop_last() =~= raw@.subrange(0, end - 1));
        end = end - 1;
    }
    let r = raw.substring_char(0, end);
    assert(trim_trailing_seps(r@) == r@);
    r
}

/// The archive identifier of `pattern`: the home directory taken off its
/// front when it starts with it, then one leading separator, and every
/// separator, dot, space and wildcard turned into an underscore.
pub fn get_archive_name(pattern: &str, user_home: &str) -> (r: String)
    ensures
        r@ == archive_name(pattern@, user_home@),
{
    let rest = after_leading_sep(after_home(pattern, user_home));
    let n = rest.unicode_len();
    let mut out = String::new();
    let mut i: usize = 0;
    while i < n
        invariant
            n == rest@.len(),
            rest@ == strip_leading_sep(strip_home(pattern@, user_home@)),
            i <= n,
            out@ =~= underscored(rest@).subrange(0, i as int),
        decreases n - i,
    {
        let c = rest.get_char(i);
        if c == '/' || c == '.' || c == ' ' || c == '*' {
            proof {
                reveal_strlit("_");
            }
            out.append("_");
        } else {
            out.append(rest.substring_char(i, i + 1));
        }
        assert(out@ =~= underscored(rest@).subrange(0, i + 1));
        i = i + 1;
    }
    out
}

/// The name under which the file at `file_path` is stored in an archive.
pub fn in_archive_path(file_path: &str, user_home: &str) -> (r: String)
    ensures
        r@ == in_archive_name(file_path@, user_home@),
{
    let rest = after_leading_sep(after_home(file_path, user_home));
    if rest.unicode_len() == 0 {
        proof {
            reveal_strlit(".");
        }
        String::from_str(".")
    } else {
        String::from_str(rest)
    }
}

/// Two calls with the same pattern and home directory give the same
/// archive identifier.
pub proof fn lemma_archive_name_deterministic(
    p1: Seq<char>,
    h1: Seq<char>,
    p2: Seq<char>,
    h2: Seq<char>,
)
    requires
        p1 == p2,
        h1 == h2,
    ensures
        archive_name(p1, h1) == archive_name(p2, h2),
{
}

} // verus!
