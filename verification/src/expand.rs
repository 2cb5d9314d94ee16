//! Macro-path expansion: the four placeholders a manifest path may carry are
//! replaced by the configured directories, by literal substring substitution;
//! unrecognised placeholders stay verbatim. For cache keys, forward slashes
//! are then normalised to backslashes.

use vstd::prelude::*;

use crate::config::AppConfig;
use crate::config::AppDirs;
use crate::config::DirsModel;
use crate::strutil::replace_chars;
use crate::strutil::replace_spec;
use crate::text::chars_of;
use crate::text::string_of;

verus! {

/// The expanded form of a macro path: each placeholder replaced by the
/// corresponding configured directory, in a fixed order of substitutions
/// (placeholder tokens cannot occur in resolved directory values, so the
/// order carries no weight).
pub open spec fn expand_spec(raw: Seq<char>, d: DirsModel) -> Seq<char> {
    let s1 = replace_spec(raw, "{appDir}"@, d.aviutl2_root);
    let s2 = replace_spec(s1, "{pluginsDir}"@, d.plugin_dir);
    let s3 = replace_spec(s2, "{scriptsDir}"@, d.script_dir);
    replace_spec(s3, "{dataDir}"@, d.aviutl2_data)
}

/// The cache key of a macro path: its expansion with every forward slash
/// turned into a backslash. Case is preserved.
pub open spec fn path_key_spec(raw: Seq<char>, d: DirsModel) -> Seq<char> {
    expand_spec(raw, d).map_values(|c: char| if c == '/' {
        '\\'
    } else {
        c
    })
}

/// Expand the macro placeholders in a path against a directory set.
pub fn expand_with_dirs(raw: &str, d: &AppDirs) -> (r: String)
    ensures
        r@ == expand_spec(raw@, d@),
{
    let s0 = chars_of(raw);
    let s1 = replace_chars(&s0, &chars_of("{appDir}"), &chars_of(d.aviutl2_root.as_str()));
    let s2 = replace_chars(&s1, &chars_of("{pluginsDir}"), &chars_of(d.plugin_dir.as_str()));
    let s3 = replace_chars(&s2, &chars_of("{scriptsDir}"), &chars_of(d.script_dir.as_str()));
    let s4 = replace_chars(&s3, &chars_of("{dataDir}"), &chars_of(d.aviutl2_data.as_str()));
    string_of(&s4)
}

/// Expand the macro placeholders in a path. Fails closed: while no
/// configuration is established the path comes back unchanged.
pub fn expand_macros(cfg: &AppConfig, raw: &str) -> (r: String)
    ensures
        cfg@ is None ==> r@ == raw@,
        cfg@ matches Some(d) ==> r@ == expand_spec(raw@, d),
{
    if cfg.is_configured() {
        expand_with_dirs(raw, crate::config::dirs(cfg))
    } else {
        String::from_str(raw)
    }
}

/// The hash-cache key for a macro path: expanded, with forward slashes
/// normalised to backslashes and case preserved.
pub fn expand_path_key(raw: &str, d: &AppDirs) -> (r: String)
    ensures
        r@ == path_key_spec(raw@, d@),
{
    let e = expand_with_dirs(raw, d);
    let cs = chars_of(e.as_str());
    let n = cs.len();
    let mut out: Vec<char> = Vec::new();
    for i in 0..n
        invariant
            n == cs@.len(),
            cs@ == expand_spec(raw@, d@),
            out@.len() == i,
            forall|k: int|
                0 <= k < i ==> out@[k] == (if cs@[k] == '/' {
                    '\\'
                } else {
                    cs@[k]
                }),
    {
        let c = cs[i];
        if c == '/' {
            out.push('\\');
        } else {
            out.push(c);
        }
    }
    proof {
        assert(out@ =~= path_key_spec(raw@, d@));
    }
    string_of(&out)
}

} // verus!
