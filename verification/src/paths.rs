//! Paths inside the archive.

use vstd::prelude::*;

use crate::text::{chars_of, string_of};

verus! {

/// `s` with every `\` turned into `/`.
pub open spec fn slashes_forward(s: Seq<char>) -> Seq<char> {
    s.map_values(|c: char| if c == '\\' { '/' } else { c })
}

/// `PathBuf::from(base).join(href)` on a Unix system: an absolute `href`
/// replaces `base`; otherwise a `/` is put between them unless `base` is
/// empty or already ends with one.
pub open spec fn join_spec(base: Seq<char>, href: Seq<char>) -> Seq<char> {
    if href.len() > 0 && href[0] == '/' {
        href
    } else if base.len() == 0 || base.last() == '/' {
        base + href
    } else {
        base.push('/') + href
    }
}

/// The archive path of `href`, a link relative to the directory `base_dir`.
pub open spec fn resolve_path_spec(base_dir: Seq<char>, href: Seq<char>) -> Seq<char> {
    if base_dir.len() == 0 {
        href
    } else {
        slashes_forward(join_spec(base_dir, href))
    }
}

/// Law: a relative link is placed under the package directory, with one
/// `/` between them; an absolute link stands as it is; without a directory
/// the link is the path. (Stated for a directory and a link without
/// backslashes, which are turned into `/`.)
pub proof fn lemma_link_under_directory(base_dir: Seq<char>, href: Seq<char>)
    requires
        forall|k: int| 0 <= k < base_dir.len() ==> base_dir[k] != '\\',
        forall|k: int| 0 <= k < href.len() ==> href[k] != '\\',
    ensures
        base_dir.len() == 0 ==> resolve_path_spec(base_dir, href) == href,
        base_dir.len() > 0 && href.len() > 0 && href[0] == '/' ==> resolve_path_spec(base_dir, href)
            == href,
        base_dir.len() > 0 && base_dir.last() != '/' && !(href.len() > 0 && href[0] == '/')
            ==> resolve_path_spec(base_dir, href) == base_dir + seq!['/'] + href,
        base_dir.len() > 0 && base_dir.last() == '/' && !(href.len() > 0 && href[0] == '/')
            ==> resolve_path_spec(base_dir, href) == base_dir + href,
{
    let j = join_spec(base_dir, href);
    assert forall|k: int| 0 <= k < j.len() implies j[k] != '\\' by {
        if !(href.len() > 0 && href[0] == '/') {
            if base_dir.len() == 0 || base_dir.last() == '/' {
                if k >= base_dir.len() {
                    assert(j[k] == href[k - base_dir.len()]);
                }
            } else {
                if k > base_dir.len() {
                    assert(j[k] == href[k - base_dir.len() - 1]);
                } else if k < base_dir.len() {
                    assert(j[k] == base_dir[k]);
                }
            }
        }
    }
    assert(slashes_forward(j) =~= j);
    assert(base_dir.push('/') =~= base_dir + seq!['/']);
}

/// The archive path of `href`, a link relative to the directory `base_dir`
/// (joined as a Unix path, with `\` turned into `/`).
pub fn resolve_path(base_dir: &str, href: &str) -> (p: String)
    ensures
        p@ == resolve_path_spec(base_dir@, href@),
{
    let b = chars_of(base_dir);
    let h = chars_of(href);
    if b.len() == 0 {
        return string_of(h.as_slice());
    }
    let mut joined: Vec<char> = Vec::new();
    let absolute = h.len() > 0 && h[0] == '/';
    if !absolute {
        let mut i: usize = 0;
        while i < b.len()
            invariant
                i <= b@.len(),
                joined@ == b@.take(i as int),
            decreases b@.len() - i,
        {
            joined.push(b[i]);
            proof {
                assert(joined@ =~= b@.take(i + 1));
            }
            i = i + 1;
        }
        proof {
            assert(b@.take(b@.len() as int) =~= b@);
        }
        if b[b.len() - 1] != '/' {
            joined.push('/');
        }
    }
    let ghost prefix = joined@;
    let mut j: usize = 0;
    while j < h.len()
        invariant
            j <= h@.len(),
            joined@ == prefix + h@.take(j as int),
        decreases h@.len() - j,
    {
        joined.push(h[j]);
        proof {
            assert(joined@ =~= prefix + h@.take(j + 1));
        }
        j = j + 1;
    }
    proof {
        assert(h@.take(h@.len() as int) =~= h@);
        assert(joined@ =~= join_spec(b@, h@));
    }
    let ghost whole = joined@;
    let mut k: usize = 0;
    while k < joined.len()
        invariant
            k <= joined@.len(),
            joined@.len() == whole.len(),
            forall|t: int| 0 <= t < k ==> joined@[t] == slashes_forward(whole)[t],
            forall|t: int| k <= t < whole.len() ==> joined@[t] == whole[t],
        decreases joined@.len() - k,
    {
        if joined[k] == '\\' {
            joined.set(k, '/');
        }
        k = k + 1;
    }
    proof {
        assert(joined@ =~= slashes_forward(whole));
    }
    string_of(joined.as_slice())
}

/// What `std::path::Path::new(p).parent()` returns, as text.
pub uninterp spec fn path_parent_of(p: Seq<char>) -> Option<Seq<char>>;

/// `std::path::Path::new(p).parent()`, through `to_string_lossy`. Believed:
/// the result is `path_parent_of(p)`.
#[verifier::external_body]
pub fn path_parent(p: &str) -> (r: Option<String>)
    ensures
        r.deep_view() == path_parent_of(p@),
{
    std::path::Path::new(p).parent().map(|q| q.to_string_lossy().into_owned())
}

/// The directory of an archive path: its parent, or nothing.
pub open spec fn dir_of_spec(p: Seq<char>) -> Seq<char> {
    match path_parent_of(p) {
        Some(d) => d,
        None => Seq::empty(),
    }
}

/// Executable `dir_of_spec`.
pub fn dir_of(p: &str) -> (d: String)
    ensures
        d@ == dir_of_spec(p@),
{
    match path_parent(p) {
        Some(d) => d,
        None => String::new(),
    }
}

} // verus!
