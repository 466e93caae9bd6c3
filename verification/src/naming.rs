//! Naming rules that tie local files to remote assets: a local filename's
//! stem (everything before the first extension separator) names an asset
//! identifier, and an asset's expected local filename is its identifier
//! followed by the extension of its original remote path, ".jpg" when that
//! path has none.

use vstd::prelude::*;
use vstd::string::*;

verus! {

/// Index of the first '.' at or after `i`, or the length when there is none.
pub open spec fn first_dot_from(s: Seq<char>, i: int) -> int
    decreases s.len() - i,
{
    if i < 0 || i >= s.len() {
        s.len() as int
    } else if s[i] == '.' {
        i
    } else {
        first_dot_from(s, i + 1)
    }
}

/// The stem of a filename: everything before the first '.', or the whole
/// name when it has no '.'.
pub open spec fn stem_of(s: Seq<char>) -> Seq<char> {
    s.take(first_dot_from(s, 0))
}

/// Index one past the last '/', or 0 when there is none: where the file-name
/// component of a path begins.
pub open spec fn file_name_start(p: Seq<char>) -> int
    decreases p.len(),
{
    if p.len() == 0 {
        0
    } else if p[p.len() - 1] == '/' {
        p.len() as int
    } else {
        file_name_start(p.drop_last())
    }
}

/// Index of the last '.' at or after `lo`, or -1 when there is none.
pub open spec fn last_dot_from(p: Seq<char>, lo: int) -> int
    decreases p.len(),
{
    if p.len() == 0 || p.len() <= lo {
        -1
    } else if p[p.len() - 1] == '.' {
        p.len() - 1
    } else {
        last_dot_from(p.drop_last(), lo)
    }
}

pub open spec fn jpg_ext() -> Seq<char> {
    seq!['.', 'j', 'p', 'g']
}

/// The extension token of an original remote path: the last '.' of its
/// file-name component (not counting a leading '.') and everything after it,
/// or ".jpg" when the component has no such '.'.
pub open spec fn ext_token(p: Seq<char>) -> Seq<char> {
    let d = last_dot_from(p, file_name_start(p) + 1);
    if d >= 0 {
        p.subrange(d, p.len() as int)
    } else {
        jpg_ext()
    }
}

/// The expected local filename of an asset: its identifier followed by the
/// extension token of its original path.
pub open spec fn expected_name(id: Seq<char>, path: Seq<char>) -> Seq<char> {
    id + ext_token(path)
}

proof fn lemma_first_dot_at_from(s: Seq<char>, j: int, d: int)
    requires
        0 <= j <= d <= s.len(),
        forall|k: int| j <= k < d ==> s[k] != '.',
        d < s.len() ==> s[d] == '.',
    ensures
        first_dot_from(s, j) == d,
    decreases d - j,
{
    if j < d {
        lemma_first_dot_at_from(s, j + 1, d);
    }
}

pub proof fn lemma_last_dot_is_dot(p: Seq<char>, lo: int)
    requires
        0 <= lo,
    ensures
        last_dot_from(p, lo) == -1 || (lo <= last_dot_from(p, lo) < p.len() && p[last_dot_from(
            p,
            lo,
        )] == '.'),
    decreases p.len(),
{
    if p.len() == 0 || p.len() <= lo {
    } else if p[p.len() - 1] == '.' {
    } else {
        lemma_last_dot_is_dot(p.drop_last(), lo);
    }
}

/// The extension token always begins with '.' and is never empty.
pub proof fn lemma_ext_token_starts_with_dot(p: Seq<char>)
    ensures
        ext_token(p).len() > 0,
        ext_token(p)[0] == '.',
{
    let fs = file_name_start(p);
    lemma_file_name_start_bounds(p);
    lemma_last_dot_is_dot(p, fs + 1);
}

pub proof fn lemma_file_name_start_bounds(p: Seq<char>)
    ensures
        0 <= file_name_start(p) <= p.len(),
    decreases p.len(),
{
    if p.len() > 0 && p[p.len() - 1] != '/' {
        lemma_file_name_start_bounds(p.drop_last());
    }
}

/// The stem of an asset's expected local filename is the asset's identifier,
/// provided the identifier itself holds no '.'.
pub proof fn lemma_stem_of_expected(id: Seq<char>, path: Seq<char>)
    requires
        !id.contains('.'),
    ensures
        stem_of(expected_name(id, path)) == id,
{
    let e = ext_token(path);
    let s = expected_name(id, path);
    lemma_ext_token_starts_with_dot(path);
    assert(forall|k: int| 0 <= k < id.len() ==> s[k] != '.') by {
        assert(forall|k: int| 0 <= k < id.len() ==> s[k] == id[k]);
    }
    assert(s[id.len() as int] == e[0]);
    lemma_first_dot_at_from(s, 0, id.len() as int);
    assert(s.take(id.len() as int) =~= id);
}

/// The stem of a filename, as executable code.
pub fn stem_of_name(name: &str) -> (r: String)
    ensures
        r@ == stem_of(name@),
{
    let n = name.unicode_len();
    let mut i: usize = 0;
    while i < n && name.get_char(i) != '.'
        invariant
            n == name@.len(),
            0 <= i <= n,
            forall|k: int| 0 <= k < i ==> name@[k] != '.',
        decreases n - i,
    {
        i += 1;
    }
    proof {
        lemma_first_dot_at_from(name@, 0, i as int);
    }
    let sub = name.substring_char(0, i);
    assert(name@.take(i as int) =~= name@.subrange(0, i as int));
    String::from_str(sub)
}

/// Where the file-name component of `path` begins: one past the last '/'.
fn find_file_name_start(path: &str) -> (fs: usize)
    ensures
        fs as int == file_name_start(path@),
        fs <= path@.len(),
{
    let n = path.unicode_len();
    let mut fs: usize = n;
    assert(path@.take(n as int) =~= path@);
    while fs > 0 && path.get_char(fs - 1) != '/'
        invariant
            n == path@.len(),
            0 <= fs <= n,
            file_name_start(path@) == file_name_start(path@.take(fs as int)),
        decreases fs,
    {
        assert(path@.take(fs as int).drop_last() =~= path@.take(fs - 1));
        fs -= 1;
    }
    assert(path@.take(fs as int).len() == fs);
    fs
}

/// The last '.' of `path` at an index at or after `lo`, when there is one.
fn find_last_dot(path: &str, lo: usize) -> (d: Option<usize>)
    requires
        1 <= lo <= path@.len(),
    ensures
        match d {
            Some(k) => k as int == last_dot_from(path@, lo as int),
            None => last_dot_from(path@, lo as int) == -1,
        },
{
    let n = path.unicode_len();
    let mut j: usize = n;
    assert(path@.take(n as int) =~= path@);
    while j > lo
        invariant
            n == path@.len(),
            lo <= j <= n,
            last_dot_from(path@, lo as int) == last_dot_from(path@.take(j as int), lo as int),
        decreases j,
    {
        if path.get_char(j - 1) == '.' {
            assert(path@.take(j as int).len() == j);
            assert(last_dot_from(path@.take(j as int), lo as int) == j - 1);
            return Some(j - 1);
        }
        assert(path@.take(j as int).drop_last() =~= path@.take(j - 1));
        j -= 1;
    }
    assert(path@.take(lo as int).len() == lo);
    None
}

/// The default extension token, ".jpg", as a `String`.
fn jpg_string() -> (r: String)
    ensures
        r@ == jpg_ext(),
{
    let r = String::from_str(".jpg");
    proof {
        reveal_strlit(".jpg");
        assert(r@ =~= jpg_ext());
    }
    r
}

/// The extension token of an original remote path, as executable code.
pub fn extension_token(path: &str) -> (r: String)
    ensures
        r@ == ext_token(path@),
{
    let n = path.unicode_len();
    let fs = find_file_name_start(path);
    if fs >= n {
        // An empty file-name component has no extension.
        return jpg_string();
    }
    match find_last_dot(path, fs + 1) {
        Some(d) => {
            proof {
                lemma_last_dot_is_dot(path@, fs + 1);
            }
            let ext = path.substring_char(d, n);
            String::from_str(ext)
        },
        None => jpg_string(),
    }
}

/// The expected local filename of an asset with identifier `id` and original
/// remote path `original_path`.
pub fn expected_filename(id: &str, original_path: &str) -> (r: String)
    ensures
        r@ == expected_name(id@, original_path@),
{
    let ext = extension_token(original_path);
    let mut r = String::from_str(id);
    r.append(ext.as_str());
    r
}

} // verus!
