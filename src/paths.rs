use crate::error::InstallError;
use vstd::prelude::*;
use vstd::string::{StrSliceExecFns, StringExecFns};

verus! {

/// A character that separates path components in an archive name or a path.
pub open spec fn is_sep(c: char) -> bool {
    c == '/' || c == '\\'
}

/// A character that never stands in a name the installer writes: a drive or
/// stream marker, or a NUL.
pub open spec fn is_forbidden(c: char) -> bool {
    c == ':' || c == '\0'
}

pub open spec fn is_dot(s: Seq<char>) -> bool {
    s == seq!['.']
}

pub open spec fn is_dot_dot(s: Seq<char>) -> bool {
    s == seq!['.', '.']
}

/// One ordinary path component: it names an entry inside its parent and
/// cannot move the path anywhere else.
pub open spec fn is_plain_component(s: Seq<char>) -> bool {
    &&& s.len() > 0
    &&& !is_dot(s)
    &&& !is_dot_dot(s)
    &&& forall|i: int| 0 <= i < s.len() ==> !is_sep(#[trigger] s[i]) && !is_forbidden(s[i])
}

/// An installation name is accepted when it is one plain component.
pub open spec fn valid_install_name(name: Seq<char>) -> bool {
    is_plain_component(name)
}

/// The separator written between components of an installed path.
pub open spec fn sep_seq() -> Seq<char> {
    seq!['\\']
}

/// The installation root that belongs to a name: a folder at the top of the
/// system drive.
pub open spec fn install_root(name: Seq<char>) -> Seq<char> {
    seq!['C', ':', '\\'] + name
}

/// `base` followed by each component, each after one separator.
pub open spec fn join_all(base: Seq<char>, comps: Seq<Seq<char>>) -> Seq<char>
    decreases comps.len(),
{
    if comps.len() == 0 {
        base
    } else {
        join_all(base, comps.drop_last()) + sep_seq() + comps.last()
    }
}

/// `p` lies strictly below `root`.
pub open spec fn strictly_below(root: Seq<char>, p: Seq<char>) -> bool {
    &&& p.len() > root.len() + 1
    &&& p.subrange(0, root.len() as int) == root
    &&& p[root.len() as int] == '\\'
}

pub proof fn lemma_join_prefix(base: Seq<char>, comps: Seq<Seq<char>>)
    ensures
        join_all(base, comps).len() >= base.len(),
        join_all(base, comps).subrange(0, base.len() as int) == base,
        comps.len() > 0 && (forall|i: int| 0 <= i < comps.len() ==> #[trigger] comps[i].len() > 0)
            ==> strictly_below(base, join_all(base, comps)),
    decreases comps.len(),
{
    if comps.len() > 0 {
        let inner = join_all(base, comps.drop_last());
        lemma_join_prefix(base, comps.drop_last());
        let whole = join_all(base, comps);
        assert(whole == inner + sep_seq() + comps.last());
        assert(whole.subrange(0, base.len() as int) =~= inner.subrange(0, base.len() as int));
        if forall|i: int| 0 <= i < comps.len() ==> #[trigger] comps[i].len() > 0 {
            assert(comps[comps.len() - 1].len() > 0);
            if comps.len() == 1 {
                assert(comps.drop_last().len() == 0);
                assert(inner == base);
                assert(whole[base.len() as int] == '\\');
            } else {
                assert forall|i: int| 0 <= i < comps.drop_last().len() implies
                    #[trigger] comps.drop_last()[i].len() > 0 by {
                    assert(comps.drop_last()[i] == comps[i]);
                }
                assert(whole[base.len() as int] == inner[base.len() as int]);
            }
        }
    }
}

/// Char-by-char test of `s@` against a spec predicate on each character.
fn has_sep_or_forbidden(s: &str) -> (r: bool)
    ensures
        r == exists|i: int| 0 <= i < s@.len() && (is_sep(#[trigger] s@[i]) || is_forbidden(s@[i])),
{
    let n = s.unicode_len();
    let mut i: usize = 0;
    while i < n
        invariant
            n == s@.len(),
            i <= n,
            forall|j: int| 0 <= j < i ==> !is_sep(#[trigger] s@[j]) && !is_forbidden(s@[j]),
        decreases n - i,
    {
        let c = s.get_char(i);
        if c == '/' || c == '\\' || c == ':' || c == '\0' {
            assert(is_sep(s@[i as int]) || is_forbidden(s@[i as int]));
            return true;
        }
        i = i + 1;
    }
    false
}

/// Whether `s@` is exactly `.`.
pub fn str_is_dot(s: &str) -> (r: bool)
    ensures
        r == is_dot(s@),
{
    let n = s.unicode_len();
    if n == 1 {
        let c = s.get_char(0);
        proof {
            if c == '.' {
                assert(s@ =~= seq!['.']);
            }
        }
        c == '.'
    } else {
        false
    }
}

/// Whether `s@` is exactly `..`.
pub fn str_is_dot_dot(s: &str) -> (r: bool)
    ensures
        r == is_dot_dot(s@),
{
    let n = s.unicode_len();
    if n == 2 {
        let c0 = s.get_char(0);
        let c1 = s.get_char(1);
        proof {
            if c0 == '.' && c1 == '.' {
                assert(s@ =~= seq!['.', '.']);
            }
        }
        c0 == '.' && c1 == '.'
    } else {
        false
    }
}

/// Whether `s@` is one plain component.
pub fn str_is_plain_component(s: &str) -> (r: bool)
    ensures
        r == is_plain_component(s@),
{
    let n = s.unicode_len();
    n > 0 && !str_is_dot(s) && !str_is_dot_dot(s) && !has_sep_or_forbidden(s)
}

/// Resolves an installation name to its root directory, `C:\<name>`. The
/// name must be a single plain component; anything else could reach outside
/// the drive root and is refused.
pub fn get_install_path(folder_name: &str) -> (r: Result<String, InstallError>)
    ensures
        r is Ok <==> valid_install_name(folder_name@),
        r matches Ok(p) ==> p@ == install_root(folder_name@),
        r matches Err(e) ==> e is InvalidName,
{
    if !str_is_plain_component(folder_name) {
        return Err(InstallError::InvalidName);
    }
    let mut root = String::from_str("C:\\");
    proof {
        reveal_strlit("C:\\");
    }
    root.append(folder_name);
    assert(root@ =~= install_root(folder_name@));
    Ok(root)
}

/// `base` followed by one separator and `comp`.
pub fn join_component(base: &str, comp: &str) -> (r: String)
    ensures
        r@ == base@ + sep_seq() + comp@,
{
    let mut r = String::from_str(base);
    proof {
        reveal_strlit("\\");
    }
    r.append("\\");
    r.append(comp);
    r
}

} // verus!
