//! Path and filename hygiene: absolute-path detection, filename sanitising
//! for downloads, login-path classification, and root-path normalisation.

use vstd::prelude::*;

use crate::strutil::matches_at;
use crate::text::chars_of;
use crate::text::string_of;
use crate::text::trim_spec;

verus! {

/// Backslashes read as forward slashes, as the absolute-path test does.
pub open spec fn slashes_fwd(s: Seq<char>) -> Seq<char> {
    s.map_values(|c: char| if c == '\\' {
        '/'
    } else {
        c
    })
}

/// An absolute path: it starts with a slash (either kind), or its UTF-8 bytes
/// carry a drive letter, a colon and a slash.
pub open spec fn is_abs_spec(s: Seq<char>) -> bool {
    let t = slashes_fwd(s);
    let b = vstd::utf8::encode_utf8(t);
    (t.len() > 0 && t[0] == '/') || (b.len() >= 3 && b[1] == 0x3A && (b[2] == 0x2F || b[2]
        == 0x5C))
}

/// Whether a path names an absolute location: a Windows drive path
/// (`C:\...`) or a rooted path (`/...` or `\...`).
pub fn is_abs(p: &str) -> (r: bool)
    ensures
        r == is_abs_spec(p@),
{
    let cs = chars_of(p);
    let n = cs.len();
    let mut t: Vec<char> = Vec::new();
    for i in 0..n
        invariant
            n == cs@.len(),
            cs@ == p@,
            t@.len() == i,
            forall|k: int|
                0 <= k < i ==> t@[k] == (if p@[k] == '\\' {
                    '/'
                } else {
                    p@[k]
                }),
    {
        let c = cs[i];
        if c == '\\' {
            t.push('/');
        } else {
            t.push(c);
        }
    }
    proof {
        assert(t@ =~= slashes_fwd(p@));
    }
    if n > 0 && t[0] == '/' {
        return true;
    }
    let s = string_of(&t);
    let b = s.as_str().as_bytes();
    b.len() >= 3 && b[1] == 0x3A && (b[2] == 0x2F || b[2] == 0x5C)
}

/// A character Windows forbids in filenames (or a path separator).
pub open spec fn forbidden_char(c: char) -> bool {
    c == '/' || c == '\\' || c == ':' || c == '*' || c == '?' || c == '"' || c == '<' || c == '>'
        || c == '|'
}

/// The sanitised filename: separators and reserved characters replaced by
/// underscores, the result trimmed, and a fallback name when nothing is left.
pub open spec fn sanitize_spec(s: Seq<char>) -> Seq<char> {
    let replaced = s.map_values(|c: char| if forbidden_char(c) {
        '_'
    } else {
        c
    });
    let trimmed = trim_spec(replaced);
    if trimmed.len() == 0 {
        "download.bin"@
    } else {
        trimmed
    }
}

/// Make a string safe to use as a filename: path separators and reserved
/// Windows characters become underscores; a name that trims to nothing
/// becomes `download.bin`.
pub fn sanitize_filename(name: &str) -> (r: String)
    ensures
        r@ == sanitize_spec(name@),
{
    let cs = chars_of(name);
    let n = cs.len();
    let mut t: Vec<char> = Vec::new();
    for i in 0..n
        invariant
            n == cs@.len(),
            cs@ == name@,
            t@.len() == i,
            forall|k: int|
                0 <= k < i ==> t@[k] == (if forbidden_char(name@[k]) {
                    '_'
                } else {
                    name@[k]
                }),
    {
        let c = cs[i];
        if c == '/' || c == '\\' || c == ':' || c == '*' || c == '?' || c == '"' || c == '<' || c
            == '>' || c == '|' {
            t.push('_');
        } else {
            t.push(c);
        }
    }
    proof {
        assert(t@ =~= name@.map_values(|c: char| if forbidden_char(c) {
            '_'
        } else {
            c
        }));
    }
    let trimmed = crate::text::trim_chars(&t);
    if trimmed.len() == 0 {
        String::from_str("download.bin")
    } else {
        string_of(&trimmed)
    }
}

/// The path with every trailing slash removed.
pub open spec fn trim_end_slashes(s: Seq<char>) -> Seq<char>
    decreases s.len(),
{
    if s.len() > 0 && s.last() == '/' {
        trim_end_slashes(s.drop_last())
    } else {
        s
    }
}

/// `s` begins with `p`.
pub open spec fn starts_with_spec(s: Seq<char>, p: Seq<char>) -> bool {
    matches_at(s, p, 0)
}

/// The login, password-reset and unlock paths of the storefront's account
/// pages, with trailing slashes ignored.
pub open spec fn is_booth_login_path_spec(s: Seq<char>) -> bool {
    let p = trim_end_slashes(s);
    starts_with_spec(p, "/users/sign_in"@) || starts_with_spec(p, "/users/sign_in_by_password"@)
        || starts_with_spec(p, "/users/password/new"@) || starts_with_spec(
        p,
        "/users/unlock/new"@,
    )
}

/// Whether a URL path is one of the storefront's login-flow pages.
pub fn is_booth_login_path(path: &str) -> (r: bool)
    ensures
        r == is_booth_login_path_spec(path@),
{
    let cs = chars_of(path);
    let mut e = cs.len();
    proof {
        assert(path@.take(e as int) =~= path@);
    }
    while e > 0 && cs[e - 1] == '/'
        invariant
            cs@ == path@,
            0 <= e <= cs@.len(),
            trim_end_slashes(path@) == trim_end_slashes(path@.take(e as int)),
        decreases e,
    {
        proof {
            assert(path@.take(e as int).drop_last() =~= path@.take(e - 1));
        }
        e -= 1;
    }
    let mut p: Vec<char> = Vec::new();
    let mut i: usize = 0;
    while i < e
        invariant
            cs@ == path@,
            0 <= i <= e <= cs@.len(),
            p@ =~= path@.take(e as int).take(i as int),
        decreases e - i,
    {
        p.push(cs[i]);
        i += 1;
        proof {
            assert(p@ =~= path@.take(e as int).take(i as int));
        }
    }
    proof {
        assert(path@.take(e as int).take(e as int) =~= path@.take(e as int));
        assert(trim_end_slashes(path@.take(e as int)) == path@.take(e as int));
        assert(p@ == trim_end_slashes(path@));
    }
    starts_with_lit(&p, "/users/sign_in") || starts_with_lit(&p, "/users/sign_in_by_password")
        || starts_with_lit(&p, "/users/password/new") || starts_with_lit(&p, "/users/unlock/new")
}

/// Whether the characters begin with the given prefix.
fn starts_with_lit(s: &Vec<char>, prefix: &str) -> (r: bool)
    ensures
        r == starts_with_spec(s@, prefix@),
{
    let p = chars_of(prefix);
    let pn = p.len();
    let sn = s.len();
    if pn > sn {
        return false;
    }
    for j in 0..pn
        invariant
            pn == p@.len(),
            sn == s@.len(),
            pn <= sn,
            p@ == prefix@,
            forall|k: int| 0 <= k < j ==> s@[k] == prefix@[k],
    {
        if s[j] != p[j] {
            assert(s@.subrange(0, prefix@.len() as int)[j as int] != prefix@[j as int]);
            return false;
        }
    }
    assert(s@.subrange(0, prefix@.len() as int) =~= prefix@);
    true
}

/// `s` ends with `p`.
pub open spec fn ends_with_spec(s: Seq<char>, p: Seq<char>) -> bool {
    p.len() <= s.len() && s.subrange(s.len() - p.len(), s.len() as int) == p
}

/// Whether the characters end with the given suffix.
fn ends_with_lit(s: &Vec<char>, suffix: &str) -> (r: bool)
    ensures
        r == ends_with_spec(s@, suffix@),
{
    let p = chars_of(suffix);
    let pn = p.len();
    let sn = s.len();
    if pn > sn {
        return false;
    }
    let base = sn - pn;
    for j in 0..pn
        invariant
            pn == p@.len(),
            sn == s@.len(),
            pn <= sn,
            base == sn - pn,
            p@ == suffix@,
            forall|k: int| 0 <= k < j ==> s@[base + k] == suffix@[k],
    {
        if s[base + j] != p[j] {
            assert(s@.subrange(s@.len() - suffix@.len(), s@.len() as int)[j as int]
                != suffix@[j as int]);
            return false;
        }
    }
    assert(s@.subrange(s@.len() - suffix@.len(), s@.len() as int) =~= suffix@);
    true
}

/// Whether a URL, given as its host and path, is one of the storefront's
/// login-flow pages: the host belongs to the storefront and the path is a
/// login path.
pub fn is_booth_login_url(host: &str, path: &str) -> (r: bool)
    ensures
        r == (ends_with_spec(host@, "booth.pm"@) && is_booth_login_path_spec(path@)),
{
    let h = chars_of(host);
    ends_with_lit(&h, "booth.pm") && is_booth_login_path(path)
}

/// Whether a URL, given as its host and path, is a storefront page past the
/// login flow.
pub fn is_booth_logged_in_url(host: &str, path: &str) -> (r: bool)
    ensures
        r == (ends_with_spec(host@, "booth.pm"@) && !is_booth_login_path_spec(path@)),
{
    let h = chars_of(host);
    ends_with_lit(&h, "booth.pm") && !is_booth_login_path(path)
}

/// The normalised root-folder path: trimmed, and with forward slashes turned
/// into backslashes; an all-whitespace path normalises to the empty path.
pub open spec fn resolve_root_spec(raw: Seq<char>) -> Seq<char> {
    trim_spec(raw).map_values(|c: char| if c == '/' {
        '\\'
    } else {
        c
    })
}

/// Normalise a user-chosen root folder: trim it and make the separators
/// Windows-style; whitespace-only input yields the empty path.
pub fn resolve_aviutl_root(raw: &str) -> (r: String)
    ensures
        r@ == resolve_root_spec(raw@),
{
    let cs = chars_of(raw);
    let t = crate::text::trim_chars(&cs);
    let n = t.len();
    let mut out: Vec<char> = Vec::new();
    for i in 0..n
        invariant
            n == t@.len(),
            t@ == trim_spec(raw@),
            out@.len() == i,
            forall|k: int|
                0 <= k < i ==> out@[k] == (if t@[k] == '/' {
                    '\\'
                } else {
                    t@[k]
                }),
    {
        let c = t[i];
        if c == '/' {
            out.push('\\');
        } else {
            out.push(c);
        }
    }
    proof {
        assert(out@ =~= resolve_root_spec(raw@));
    }
    string_of(&out)
}

/// Normalise a user-chosen root folder, rejecting one that normalises to the
/// empty path with a message asking for a folder.
pub fn resolve_aviutl2_root(raw: &str) -> (r: Result<String, String>)
    ensures
        r matches Ok(s) ==> s@ == resolve_root_spec(raw@) && resolve_root_spec(raw@).len() > 0,
        r is Err <==> resolve_root_spec(raw@).len() == 0,
{
    let resolved = resolve_aviutl_root(raw);
    if resolved.as_str().is_empty() {
        Err(String::from_str("choose a folder for the root"))
    } else {
        Ok(resolved)
    }
}

} // verus!
