//! Serving the bundled web UI: request-path normalisation, SPA fallback, content types and
//! cache policy.
use vstd::prelude::*;

use crate::origin::text_eq;

verus! {

/// `s` without its leading `/` characters.
pub open spec fn without_leading_slashes(s: Seq<char>) -> Seq<char>
    decreases s.len(),
{
    if s.len() > 0 && s[0] == '/' {
        without_leading_slashes(s.drop_first())
    } else {
        s
    }
}

/// Dropping a prefix of `/` characters does not change what dropping all leading `/`
/// characters gives.
proof fn lemma_slash_prefix(t: Seq<char>, count: int)
    requires
        0 <= count <= t.len(),
        forall|k: int| 0 <= k < count ==> t[k] == '/',
    ensures
        without_leading_slashes(t) == without_leading_slashes(t.subrange(count, t.len() as int)),
    decreases count,
{
    if count > 0 {
        let d = t.drop_first();
        assert forall|k: int| 0 <= k < count - 1 implies d[k] == '/' by {
            assert(d[k] == t[k + 1]);
        }
        lemma_slash_prefix(d, count - 1);
        assert(d.subrange(count - 1, d.len() as int) =~= t.subrange(count, t.len() as int));
    } else {
        assert(t.subrange(0, t.len() as int) =~= t);
    }
}

/// The string without its leading `/` characters.
fn trim_leading_slashes(s: &str) -> (r: &str)
    ensures
        r@ == without_leading_slashes(s@),
{
    let ghost t = s@;
    let len = s.unicode_len();
    let mut count: usize = 0;
    let mut in_prefix = true;
    for c in it: s.chars()
        invariant
            it.seq() == t,
            len == t.len(),
            count <= it.index(),
            in_prefix ==> count == it.index(),
            forall|k: int| 0 <= k < count ==> t[k] == '/',
            !in_prefix ==> count < t.len() && t[count as int] != '/',
    {
        proof {
            assert(t[it.index()] == c);
        }
        if in_prefix && c == '/' {
            count = count + 1;
        } else {
            in_prefix = false;
        }
    }
    proof {
        lemma_slash_prefix(t, count as int);
        let u = t.subrange(count as int, t.len() as int);
        if u.len() > 0 {
            assert(u[0] == t[count as int]);
        }
    }
    s.substring_char(count, len)
}

/// The pieces of `s` between `sep` characters, as `str::split` yields them (an empty string
/// has one empty piece).
pub open spec fn split_on(s: Seq<char>, sep: char) -> Seq<Seq<char>>
    decreases s.len(),
{
    if s.len() == 0 {
        seq![Seq::<char>::empty()]
    } else {
        let r = split_on(s.drop_last(), sep);
        if s.last() == sep {
            r.push(Seq::<char>::empty())
        } else {
            r.update(r.len() - 1, r.last().push(s.last()))
        }
    }
}

/// The split of any string has at least one piece.
proof fn lemma_split_nonempty(s: Seq<char>, sep: char)
    ensures
        split_on(s, sep).len() > 0,
    decreases s.len(),
{
    if s.len() > 0 {
        lemma_split_nonempty(s.drop_last(), sep);
    }
}

/// A path segment that is empty, `.` or `..`.
pub open spec fn is_bad_segment(seg: Seq<char>) -> bool {
    seg.len() == 0 || seg == seq!['.'] || seg == seq!['.', '.']
}

/// A path that may name an asset: non-empty, no backslash, and no empty, `.` or `..`
/// segment.
pub open spec fn is_safe_asset_path(p: Seq<char>) -> bool {
    &&& p.len() > 0
    &&& !p.contains('\\')
    &&& forall|i: int| 0 <= i < split_on(p, '/').len() ==> !is_bad_segment(#[trigger] split_on(p, '/')[i])
}

/// Whether `seg` is bad, from its length and whether it is all dots.
spec fn bad_from_summary(len: nat, all_dots: bool) -> bool {
    len == 0 || (all_dots && len <= 2)
}

proof fn lemma_bad_summary(seg: Seq<char>)
    ensures
        is_bad_segment(seg) == bad_from_summary(seg.len(), forall|k: int| 0 <= k < seg.len() ==> seg[k] == '.'),
{
    if seg.len() == 1 && (forall|k: int| 0 <= k < seg.len() ==> seg[k] == '.') {
        assert(seg =~= seq!['.']);
    }
    if seg.len() == 2 && (forall|k: int| 0 <= k < seg.len() ==> seg[k] == '.') {
        assert(seg =~= seq!['.', '.']);
    }
    if seg == seq!['.'] {
        assert(seg[0] == '.');
    }
}

/// Normalises a requested asset path: leading `/` are dropped, and paths that could escape
/// the asset directory (backslashes, empty, `.` or `..` segments) or are empty are refused.
pub fn normalize_asset_path(path: &str) -> (r: Option<&str>)
    ensures
        r is Some <==> is_safe_asset_path(without_leading_slashes(path@)),
        r matches Some(p) ==> p@ == without_leading_slashes(path@),
{
    let trimmed = trim_leading_slashes(path);
    let ghost t = trimmed@;
    let mut ok = true;
    let mut seg_len: usize = 0;
    let mut seg_dots = true;
    let ghost mut idx: int = 0;
    for c in it: trimmed.chars()
        invariant
            it.seq() == t,
            idx == it.index(),
            0 <= idx <= t.len(),
            seg_len <= 3,
            ({
                let parts = split_on(t.take(idx), '/');
                &&& parts.len() > 0
                &&& seg_len == (if parts.last().len() >= 3 { 3 } else { parts.last().len() })
                &&& seg_dots == (forall|k: int| 0 <= k < parts.last().len() ==> parts.last()[k] == '.')
                &&& ok == (!t.take(idx).contains('\\') && forall|i: int| 0 <= i < parts.len() - 1 ==> !is_bad_segment(#[trigger] parts[i]))
            }),
    {
        let ghost before = t.take(idx);
        let ghost parts0 = split_on(before, '/');
        proof {
            assert(t.take(idx + 1).drop_last() =~= before);
            assert(t.take(idx + 1).last() == c);
            assert(t[idx] == c);
        }
        if c == '/' {
            proof {
                lemma_bad_summary(parts0.last());
            }
            ok = ok && !(seg_len == 0 || (seg_dots && seg_len <= 2));
            seg_len = 0;
            seg_dots = true;
        } else {
            if c == '\\' {
                ok = false;
            }
            if seg_len < 3 {
                seg_len = seg_len + 1;
            }
            seg_dots = seg_dots && c == '.';
        }
        proof {
            let after = t.take(idx + 1);
            let parts1 = split_on(after, '/');
            assert(after =~= before.push(c));
            if c == '/' {
                assert(parts1 == parts0.push(Seq::<char>::empty()));
                assert forall|i: int| 0 <= i < parts1.len() - 1 implies parts1[i] == parts0[i] by {}
            } else {
                assert(parts1 == parts0.update(parts0.len() - 1, parts0.last().push(c)));
                assert forall|i: int| 0 <= i < parts1.len() - 1 implies parts1[i] == parts0[i] by {}
                assert(parts1.last() =~= parts0.last().push(c));
            }
            if after.contains('\\') && !before.contains('\\') {
                let m = choose|m: int| 0 <= m < after.len() && after[m] == '\\';
                if m < before.len() {
                    assert(before[m] == '\\');
                }
            }
            if before.contains('\\') {
                let m = choose|m: int| 0 <= m < before.len() && before[m] == '\\';
                assert(after[m] == '\\');
            }
            if c == '\\' {
                assert(after[before.len() as int] == '\\');
            }
            assert(parts1.len() > 0);
            if c != '/' {
                let l0 = parts0.last();
                let l1 = parts1.last();
                assert(l1.len() == l0.len() + 1);
                if seg_dots {
                    assert forall|k: int| 0 <= k < l1.len() implies l1[k] == '.' by {
                        if k < l0.len() {
                            assert(l1[k] == l0[k]);
                        }
                    }
                } else {
                    if c == '.' {
                        let k = choose|k: int| !(0 <= k < l0.len() ==> l0[k] == '.');
                        assert(l1[k] == l0[k]);
                    } else {
                        assert(l1[l0.len() as int] == c);
                    }
                }
            } else {
                assert(parts1.last().len() == 0);
            }
            assert(seg_dots == (forall|k: int| 0 <= k < parts1.last().len() ==> parts1.last()[k] == '.'));
            assert(seg_len == (if parts1.last().len() >= 3 { 3 } else { parts1.last().len() }));
        }
        proof {
            idx = idx + 1;
        }
    }
    proof {
        assert(t.take(idx) =~= t);
        let parts = split_on(t, '/');
        lemma_bad_summary(parts.last());
    }
    let last_ok = !(seg_len == 0 || (seg_dots && seg_len <= 2));
    if trimmed.is_empty() || !ok || !last_ok {
        return None;
    }
    Some(trimmed)
}


/// A string that starts with `sep` splits into at least two pieces, the first one empty.
proof fn lemma_split_leading_separator(s: Seq<char>, sep: char)
    requires
        s.len() > 0,
        s[0] == sep,
    ensures
        split_on(s, sep).len() >= 2,
        split_on(s, sep)[0].len() == 0,
    decreases s.len(),
{
    if s.len() == 1 {
        assert(s.drop_last() =~= Seq::<char>::empty());
        assert(s.last() == sep);
    } else {
        let d = s.drop_last();
        assert(d[0] == sep);
        lemma_split_leading_separator(d, sep);
    }
}

/// A normalised asset path normalises to itself: a safe path has no leading `/`, so
/// normalising it again gives it back unchanged.
pub proof fn lemma_normalized_path_is_stable(p: Seq<char>)
    requires
        is_safe_asset_path(p),
    ensures
        p[0] != '/',
        without_leading_slashes(p) == p,
        is_safe_asset_path(without_leading_slashes(p)),
{
    if p[0] == '/' {
        lemma_split_leading_separator(p, '/');
        assert(is_bad_segment(split_on(p, '/')[0]));
    }
}

/// The last piece of `s` split at `sep`: what `s.rsplit(sep).next()` yields.
pub open spec fn last_piece(s: Seq<char>, sep: char) -> Seq<char> {
    split_on(s, sep).last()
}

/// The characters of `s` after its last `sep` (all of `s` when there is none).
fn last_piece_of(s: &str, sep: char) -> (r: Vec<char>)
    ensures
        r@ == last_piece(s@, sep),
{
    let ghost t = s@;
    let mut piece: Vec<char> = Vec::new();
    let ghost mut idx: int = 0;
    for c in it: s.chars()
        invariant
            it.seq() == t,
            idx == it.index(),
            0 <= idx <= t.len(),
            piece@ == split_on(t.take(idx), sep).last(),
    {
        proof {
            assert(t.take(idx + 1).drop_last() =~= t.take(idx));
            assert(t.take(idx + 1).last() == c);
            assert(t[idx] == c);
            lemma_split_nonempty(t.take(idx), sep);
        }
        if c == sep {
            piece = Vec::new();
        } else {
            piece.push(c);
        }
        proof {
            idx = idx + 1;
        }
    }
    proof {
        assert(t.take(idx) =~= t);
    }
    piece
}

/// Whether `v` holds exactly the characters of `lit`.
fn chars_equal(v: &Vec<char>, lit: &str) -> (r: bool)
    ensures
        r == (v@ == lit@),
{
    let ghost t = lit@;
    let mut same = true;
    let mut i: usize = 0;
    let ghost mut idx: int = 0;
    for c in it: lit.chars()
        invariant
            it.seq() == t,
            idx == it.index(),
            0 <= idx <= t.len(),
            i as int == (if idx <= v@.len() { idx } else { v@.len() as int }),
            same == (idx <= v@.len() && forall|k: int| 0 <= k < idx ==> v@[k] == t[k]),
    {
        proof {
            assert(t[idx] == c);
        }
        if i < v.len() {
            same = same && v[i] == c;
            i = i + 1;
        } else {
            same = false;
        }
        proof {
            idx = idx + 1;
        }
    }
    let r = same && i == v.len();
    proof {
        if r {
            assert(v@ =~= t);
        }
        if v@ == t {
            assert(idx == t.len());
        }
    }
    r
}

/// A path whose last segment has no `.` is a client-side route: the index page serves it.
pub fn should_fallback_to_index(path: &str) -> (r: bool)
    ensures
        r == !last_piece(path@, '/').contains('.'),
{
    let name = last_piece_of(path, '/');
    let mut i: usize = 0;
    while i < name.len()
        invariant
            i <= name@.len(),
            name@ == last_piece(path@, '/'),
            forall|k: int| 0 <= k < i ==> name@[k] != '.',
        decreases name@.len() - i,
    {
        if name[i] == '.' {
            proof {
                assert(name@[i as int] == '.');
                assert(name@.contains('.'));
            }
            return false;
        }
        i = i + 1;
    }
    true
}

/// The content type served for a path, by the text after its last `.`.
pub open spec fn content_type_spec(path: Seq<char>) -> Seq<char> {
    let ext = last_piece(path, '.');
    if ext == "css"@ {
        "text/css; charset=utf-8"@
    } else if ext == "html"@ {
        "text/html; charset=utf-8"@
    } else if ext == "ico"@ {
        "image/x-icon"@
    } else if ext == "js"@ || ext == "mjs"@ {
        "text/javascript; charset=utf-8"@
    } else if ext == "json"@ || ext == "map"@ {
        "application/json"@
    } else if ext == "png"@ {
        "image/png"@
    } else if ext == "svg"@ {
        "image/svg+xml"@
    } else if ext == "wasm"@ {
        "application/wasm"@
    } else {
        "application/octet-stream"@
    }
}

pub fn content_type_for_path(path: &str) -> (r: &'static str)
    ensures
        r@ == content_type_spec(path@),
{
    let ext = last_piece_of(path, '.');
    if chars_equal(&ext, "css") {
        "text/css; charset=utf-8"
    } else if chars_equal(&ext, "html") {
        "text/html; charset=utf-8"
    } else if chars_equal(&ext, "ico") {
        "image/x-icon"
    } else if chars_equal(&ext, "js") || chars_equal(&ext, "mjs") {
        "text/javascript; charset=utf-8"
    } else if chars_equal(&ext, "json") || chars_equal(&ext, "map") {
        "application/json"
    } else if chars_equal(&ext, "png") {
        "image/png"
    } else if chars_equal(&ext, "svg") {
        "image/svg+xml"
    } else if chars_equal(&ext, "wasm") {
        "application/wasm"
    } else {
        "application/octet-stream"
    }
}

/// The page that serves client-side routes.
pub const INDEX_PAGE: &'static str = "index.html";

/// Cache policy of an asset: the index page is always revalidated, fingerprinted assets are
/// cached for a year.
pub fn cache_control_for_path(path: &str) -> (r: &'static str)
    ensures
        r@ == (if path@ == "index.html"@ { "no-cache"@ } else { "public, max-age=31536000, immutable"@ }),
{
    if text_eq(path, INDEX_PAGE) {
        "no-cache"
    } else {
        "public, max-age=31536000, immutable"
    }
}

/// A bundled UI file.
#[derive(Clone, Copy, Debug)]
pub struct Asset {
    pub path: &'static str,
    pub bytes: &'static [u8],
}

/// Some asset has path `path`.
pub open spec fn has_asset(assets: Seq<Asset>, path: Seq<char>) -> bool {
    exists|i: int| 0 <= i < assets.len() && assets[i].path@ == path
}

/// Position `i` holds the first asset with path `path`.
pub open spec fn is_first_asset(assets: Seq<Asset>, path: Seq<char>, i: int) -> bool {
    &&& 0 <= i < assets.len()
    &&& assets[i].path@ == path
    &&& forall|j: int| 0 <= j < i ==> assets[j].path@ != path
}

/// The first asset with path `path`.
pub fn get_asset(assets: &[Asset], path: &str) -> (r: Option<usize>)
    ensures
        r is Some <==> has_asset(assets@, path@),
        r matches Some(i) ==> is_first_asset(assets@, path@, i as int),
{
    let mut i: usize = 0;
    while i < assets.len()
        invariant
            i <= assets@.len(),
            forall|j: int| 0 <= j < i ==> assets@[j].path@ != path@,
        decreases assets@.len() - i,
    {
        if text_eq(assets[i].path, path) {
            return Some(i);
        }
        i = i + 1;
    }
    None
}

/// What answers a request for an asset path.
#[derive(Clone, Copy, Debug, PartialEq, Eq, Structural)]
pub enum AssetChoice {
    /// The asset at this position of the bundle.
    Asset(usize),
    /// Nothing: a not-found response.
    NotFound,
}

/// The asset at `path`; else, for a client-side route, the index page; else not found.
pub fn response_for_path(assets: &[Asset], path: &str) -> (r: AssetChoice)
    ensures
        has_asset(assets@, path@) ==> (r matches AssetChoice::Asset(i) && is_first_asset(assets@, path@, i as int)),
        !has_asset(assets@, path@) && !last_piece(path@, '/').contains('.') ==> {
            ||| (r matches AssetChoice::Asset(i) && is_first_asset(assets@, "index.html"@, i as int))
            ||| (r == AssetChoice::NotFound && !has_asset(assets@, "index.html"@))
        },
        !has_asset(assets@, path@) && last_piece(path@, '/').contains('.') ==> r == AssetChoice::NotFound,
{
    match get_asset(assets, path) {
        Some(i) => AssetChoice::Asset(i),
        None => if should_fallback_to_index(path) {
            match get_asset(assets, INDEX_PAGE) {
                Some(i) => AssetChoice::Asset(i),
                None => AssetChoice::NotFound,
            }
        } else {
            AssetChoice::NotFound
        },
    }
}

} // verus!
