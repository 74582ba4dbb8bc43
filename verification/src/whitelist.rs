//! The content whitelist: which normalized relative paths may be packed
//! or extracted.  A single wildcard-pattern matcher backs the default
//! allow list, the default ignore list and caller-supplied ignore
//! patterns, so extraction and pre-publish verification share one
//! policy.

use vstd::prelude::*;
use vstd::utf8::encode_utf8;

verus! {

/// Wildcard matching over bytes: `*` matches any run of bytes (across
/// directory separators, as the game's own packer does); every other
/// byte matches itself.
pub open spec fn spec_wild_match(p: Seq<u8>, s: Seq<u8>) -> bool
    decreases p.len() + s.len(),
{
    if p.len() == 0 {
        s.len() == 0
    } else if p[0] == 42u8 {
        spec_wild_match(p.drop_first(), s) || (s.len() > 0 && spec_wild_match(p, s.drop_first()))
    } else {
        s.len() > 0 && p[0] == s[0] && spec_wild_match(p.drop_first(), s.drop_first())
    }
}

/// Whether the pattern suffix from `pi` matches the path suffix from `si`.
fn wild_match_at(p: &[u8], s: &[u8], pi: usize, si: usize) -> (r: bool)
    requires
        pi <= p@.len(),
        si <= s@.len(),
    ensures
        r == spec_wild_match(
            p@.subrange(pi as int, p@.len() as int),
            s@.subrange(si as int, s@.len() as int),
        ),
    decreases p@.len() - pi + s@.len() - si,
{
    let ghost ps = p@.subrange(pi as int, p@.len() as int);
    let ghost ss = s@.subrange(si as int, s@.len() as int);
    if pi == p.len() {
        return si == s.len();
    }
    proof {
        assert(ps[0] == p@[pi as int]);
        assert(ps.drop_first() =~= p@.subrange(pi + 1, p@.len() as int));
    }
    if p[pi] == 42 {
        if wild_match_at(p, s, pi + 1, si) {
            return true;
        }
        if si < s.len() {
            proof {
                assert(ss.drop_first() =~= s@.subrange(si + 1, s@.len() as int));
            }
            return wild_match_at(p, s, pi, si + 1);
        }
        return false;
    }
    if si == s.len() {
        return false;
    }
    proof {
        assert(ss[0] == s@[si as int]);
        assert(ss.drop_first() =~= s@.subrange(si + 1, s@.len() as int));
    }
    if p[pi] != s[si] {
        return false;
    }
    wild_match_at(p, s, pi + 1, si + 1)
}

/// Whether `pattern` matches `path`, with `*` matching any run of
/// characters.
pub fn wild_match(pattern: &str, path: &str) -> (r: bool)
    ensures
        r == spec_wild_match(encode_utf8(pattern@), encode_utf8(path@)),
{
    let pb = pattern.as_bytes();
    let sb = path.as_bytes();
    proof {
        assert(pb@.subrange(0, pb@.len() as int) =~= encode_utf8(pattern@));
        assert(sb@.subrange(0, sb@.len() as int) =~= encode_utf8(path@));
    }
    wild_match_at(pb, sb, 0, 0)
}

/// The default allow list: the file types the game accepts in an addon.
#[verifier::opaque]
pub open spec fn spec_whitelist_patterns() -> Seq<Seq<char>> {
    seq![
        "lua/*.lua"@,
        "scripts/*.txt"@,
        "particles/*.pcf"@,
        "resource/fonts/*.ttf"@,
        "resource/localization/*/*.properties"@,
        "maps/*.bsp"@,
        "maps/*.nav"@,
        "maps/*.ain"@,
        "sound/*.wav"@,
        "sound/*.mp3"@,
        "sound/*.ogg"@,
        "materials/*.vmt"@,
        "materials/*.vtf"@,
        "materials/*.png"@,
        "materials/*.jpg"@,
        "materials/*.jpeg"@,
        "models/*.mdl"@,
        "models/*.vtx"@,
        "models/*.phy"@,
        "models/*.ani"@,
        "models/*.vvd"@,
        "gamemodes/*/*.txt"@,
        "gamemodes/*/*.fgd"@,
        "gamemodes/*/logo.png"@,
        "gamemodes/*/icon24.png"@,
        "gamemodes/*/gamemode/*.lua"@,
        "gamemodes/*/entities/*.lua"@,
        "gamemodes/*/backgrounds/*.png"@,
        "gamemodes/*/content/*"@,
        "data_static/*.txt"@,
        "data_static/*.dat"@,
        "data_static/*.json"@,
    ]
}

/// Whether some pattern of the list matches the path.
pub open spec fn spec_matches_any(patterns: Seq<Seq<char>>, path: Seq<char>) -> bool {
    exists|i: int|
        0 <= i < patterns.len() && spec_wild_match(
            encode_utf8(#[trigger] patterns[i]),
            encode_utf8(path),
        )
}

/// Whether a normalized relative path is allowed into a container.
pub open spec fn spec_whitelisted(path: Seq<char>) -> bool {
    spec_matches_any(spec_whitelist_patterns(), path)
}

/// The default ignore list: conventionally irrelevant files that are
/// silently skipped rather than reported as violations.
#[verifier::opaque]
pub open spec fn spec_default_ignore_patterns() -> Seq<Seq<char>> {
    seq![
        ".git/*"@,
        ".svn/*"@,
        ".ds_store"@,
        "*/.ds_store"@,
        "desktop.ini"@,
        "*/desktop.ini"@,
        "thumbs.db"@,
        "*.psd"@,
        "*.pdn"@,
        "*.xcf"@,
    ]
}

/// Whether a path survives the default ignore filter (true = kept).
pub open spec fn spec_default_kept(path: Seq<char>) -> bool {
    !spec_matches_any(spec_default_ignore_patterns(), path)
}

/// Whether one of the caller-supplied patterns matches the path.
pub open spec fn spec_user_ignored(path: Seq<char>, patterns: Seq<Seq<char>>) -> bool {
    spec_matches_any(patterns, path)
}

/// Whether a normalized relative path is allowed into a container:
/// it must match one of the default allow patterns.
pub fn check(path: &str) -> (r: bool)
    ensures
        r == spec_whitelisted(path@),
{
    let pats = whitelist_pattern_vec();
    let r = matches_any(&pats, path);
    proof {
        reveal(spec_whitelist_patterns);
        assert(pats.deep_view() =~= spec_whitelist_patterns());
    }
    r
}

/// Whether a path survives the default ignore filter (true = kept, as a
/// filter predicate).
pub fn filter_default_ignored(path: &str) -> (r: bool)
    ensures
        r == spec_default_kept(path@),
{
    let pats = default_ignore_pattern_vec();
    let r = matches_any(&pats, path);
    proof {
        reveal(spec_default_ignore_patterns);
        assert(pats.deep_view() =~= spec_default_ignore_patterns());
    }
    !r
}

/// Whether one of the caller-supplied ignore patterns matches the path.
pub fn is_ignored(path: &str, patterns: &Vec<String>) -> (r: bool)
    ensures
        r == spec_user_ignored(path@, patterns.deep_view()),
{
    let mut i: usize = 0;
    while i < patterns.len()
        invariant
            i <= patterns@.len(),
            forall|k: int|
                0 <= k < i ==> !spec_wild_match(
                    encode_utf8(#[trigger] patterns.deep_view()[k]),
                    encode_utf8(path@),
                ),
        decreases patterns@.len() - i,
    {
        if wild_match(patterns[i].as_str(), path) {
            proof {
                assert(patterns.deep_view()[i as int] == patterns@[i as int]@);
            }
            return true;
        }
        proof {
            assert(patterns.deep_view()[i as int] == patterns@[i as int]@);
        }
        i = i + 1;
    }
    false
}

/// Whether any pattern of the list matches the path.
fn matches_any(patterns: &Vec<String>, path: &str) -> (r: bool)
    ensures
        r == spec_matches_any(patterns.deep_view(), path@),
{
    let mut i: usize = 0;
    while i < patterns.len()
        invariant
            i <= patterns@.len(),
            forall|k: int|
                0 <= k < i ==> !spec_wild_match(
                    encode_utf8(#[trigger] patterns.deep_view()[k]),
                    encode_utf8(path@),
                ),
        decreases patterns@.len() - i,
    {
        if wild_match(patterns[i].as_str(), path) {
            proof {
                assert(patterns.deep_view()[i as int] == patterns@[i as int]@);
            }
            return true;
        }
        proof {
            assert(patterns.deep_view()[i as int] == patterns@[i as int]@);
        }
        i = i + 1;
    }
    false
}

/// The default allow list as runtime strings.
fn whitelist_pattern_vec() -> (r: Vec<String>)
    ensures
        r.deep_view() == spec_whitelist_patterns(),
{
    let mut v: Vec<String> = Vec::new();
    v.push(String::from_str("lua/*.lua"));
    v.push(String::from_str("scripts/*.txt"));
    v.push(String::from_str("particles/*.pcf"));
    v.push(String::from_str("resource/fonts/*.ttf"));
    v.push(String::from_str("resource/localization/*/*.properties"));
    v.push(String::from_str("maps/*.bsp"));
    v.push(String::from_str("maps/*.nav"));
    v.push(String::from_str("maps/*.ain"));
    v.push(String::from_str("sound/*.wav"));
    v.push(String::from_str("sound/*.mp3"));
    v.push(String::from_str("sound/*.ogg"));
    v.push(String::from_str("materials/*.vmt"));
    v.push(String::from_str("materials/*.vtf"));
    v.push(String::from_str("materials/*.png"));
    v.push(String::from_str("materials/*.jpg"));
    v.push(String::from_str("materials/*.jpeg"));
    v.push(String::from_str("models/*.mdl"));
    v.push(String::from_str("models/*.vtx"));
    v.push(String::from_str("models/*.phy"));
    v.push(String::from_str("models/*.ani"));
    v.push(String::from_str("models/*.vvd"));
    v.push(String::from_str("gamemodes/*/*.txt"));
    v.push(String::from_str("gamemodes/*/*.fgd"));
    v.push(String::from_str("gamemodes/*/logo.png"));
    v.push(String::from_str("gamemodes/*/icon24.png"));
    v.push(String::from_str("gamemodes/*/gamemode/*.lua"));
    v.push(String::from_str("gamemodes/*/entities/*.lua"));
    v.push(String::from_str("gamemodes/*/backgrounds/*.png"));
    v.push(String::from_str("gamemodes/*/content/*"));
    v.push(String::from_str("data_static/*.txt"));
    v.push(String::from_str("data_static/*.dat"));
    v.push(String::from_str("data_static/*.json"));
    proof {
        reveal(spec_whitelist_patterns);
        assert(v.deep_view() =~= spec_whitelist_patterns());
    }
    v
}

/// The default ignore list as runtime strings.
fn default_ignore_pattern_vec() -> (r: Vec<String>)
    ensures
        r.deep_view() == spec_default_ignore_patterns(),
{
    let mut v: Vec<String> = Vec::new();
    v.push(String::from_str(".git/*"));
    v.push(String::from_str(".svn/*"));
    v.push(String::from_str(".ds_store"));
    v.push(String::from_str("*/.ds_store"));
    v.push(String::from_str("desktop.ini"));
    v.push(String::from_str("*/desktop.ini"));
    v.push(String::from_str("thumbs.db"));
    v.push(String::from_str("*.psd"));
    v.push(String::from_str("*.pdn"));
    v.push(String::from_str("*.xcf"));
    proof {
        reveal(spec_default_ignore_patterns);
        assert(v.deep_view() =~= spec_default_ignore_patterns());
    }
    v
}

} // verus!
