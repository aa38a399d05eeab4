//! Where OpenCode keeps its models cache, relative to the home directory.
//!
//! Paths are strings with `/` as the separator, joined as `PathBuf::join`
//! joins a relative component on Unix.

use vstd::prelude::*;
use vstd::string::*;

verus! {

/// `base` joined with the relative `component`: a separator goes between
/// them unless `base` is empty or already ends with one.
pub open spec fn joined_path(base: Seq<char>, component: Seq<char>) -> Seq<char> {
    if base.len() == 0 || base.last() == '/' {
        base + component
    } else {
        base + seq!['/'] + component
    }
}

/// `s` ends with `suffix`.
pub open spec fn ends_with(s: Seq<char>, suffix: Seq<char>) -> bool {
    suffix.len() <= s.len() && s.subrange(s.len() - suffix.len(), s.len() as int) == suffix
}

/// The OpenCode cache directory under the home directory `home`: `<home>/.cache/opencode`.
pub open spec fn opencode_cache_dir(home: Seq<char>) -> Seq<char> {
    joined_path(joined_path(home, ".cache"@), "opencode"@)
}

/// The OpenCode models cache under the home directory `home`:
/// `<home>/.cache/opencode/models.json`.
pub open spec fn opencode_models_cache_path(home: Seq<char>) -> Seq<char> {
    joined_path(opencode_cache_dir(home), "models.json"@)
}

/// Joins the relative path component `component` to `base`.
fn join_path(base: &str, component: &str) -> (r: String)
    ensures
        r@ == joined_path(base@, component@),
{
    let mut r = base.to_owned();
    let n = base.unicode_len();
    if n > 0 && base.get_char(n - 1) != '/' {
        let sep = "/";
        proof {
            reveal_strlit("/");
        }
        r.append(sep);
    }
    r.append(component);
    assert(r@ =~= joined_path(base@, component@));
    r
}

/// The OpenCode cache directory under the home directory `home`.
pub fn get_opencode_cache_dir(home: &str) -> (r: String)
    ensures
        r@ == opencode_cache_dir(home@),
        ends_with(r@, "/opencode"@),
{
    let cache = ".cache";
    let opencode = "opencode";
    proof {
        reveal_strlit(".cache");
        reveal_strlit("opencode");
        reveal_strlit("/opencode");
    }
    let dot_cache = join_path(home, cache);
    let r = join_path(dot_cache.as_str(), opencode);
    assert(dot_cache@.len() > 0);
    assert(r@.subrange(r@.len() - 9, r@.len() as int) =~= "/opencode"@);
    r
}

/// The OpenCode models cache file under the home directory `home`.
pub fn get_opencode_models_cache_path(home: &str) -> (r: String)
    ensures
        r@ == opencode_models_cache_path(home@),
        ends_with(r@, "/models.json"@),
{
    let dir = get_opencode_cache_dir(home);
    let models = "models.json";
    proof {
        reveal_strlit("models.json");
        reveal_strlit("/opencode");
        reveal_strlit("/models.json");
    }
    let r = join_path(dir.as_str(), models);
    assert(dir@.subrange(dir@.len() - 9, dir@.len() as int)[8] == dir@[dir@.len() - 1]);
    assert(dir@[dir@.len() - 1] == 'e');
    assert(r@.subrange(r@.len() - 12, r@.len() as int) =~= "/models.json"@);
    r
}

} // verus!
