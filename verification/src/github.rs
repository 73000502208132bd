//! GitHub flavour: the shape of its tree listing and the decoding of the
//! blob payloads its API returns.

use vstd::prelude::*;

verus! {

/// Coordinates and credentials of one GitHub repository.
pub struct Repo {
    pub token: String,
    pub owner: String,
    pub repo: String,
    pub branch: String,
}

/// One record of a GitHub tree listing, as the API reports it.
#[derive(Debug)]
pub struct TreeEntry {
    pub path: String,
    pub mode: String,
    pub _type: EntryType,
    pub sha: String,
    pub size: Option<usize>,
    pub url: String,
}

/// The node kind a GitHub tree record carries.
#[derive(Copy, Clone, Debug, PartialEq, Eq, Structural)]
pub enum EntryType {
    Blob,
    Tree,
}

impl Repo {
    /// The address the whole tree of this repository is listed from.
    pub fn tree_url(&self) -> (r: String)
        ensures
            r@ == "https://api.github.com/repos/"@ + self.owner@ + "/"@ + self.repo@
                + "/git/trees/"@ + self.branch@ + "?recursive=1"@,
    {
        let mut out = "https://api.github.com/repos/".to_owned();
        out.append(self.owner.as_str());
        out.append("/");
        out.append(self.repo.as_str());
        out.append("/git/trees/");
        out.append(self.branch.as_str());
        out.append("?recursive=1");
        out
    }

    /// The address one blob of this repository is fetched from.
    pub fn blob_url(&self, sha: &str) -> (r: String)
        ensures
            r@ == "https://api.github.com/repos/"@ + self.owner@ + "/"@ + self.repo@
                + "/git/blobs/"@ + sha@,
    {
        let mut out = "https://api.github.com/repos/".to_owned();
        out.append(self.owner.as_str());
        out.append("/");
        out.append(self.repo.as_str());
        out.append("/git/blobs/");
        out.append(sha);
        out
    }
}

/// Decodes the payload of GitHub's blob endpoint: base64 broken by embedded
/// whitespace, which is removed before decoding.  Nothing is returned where
/// the remainder is no valid base64.
pub fn decode_blob_content(content: &str) -> (r: Option<Vec<u8>>)
    ensures
        match (r, crate::repo::base64_decoded(crate::strutil::without_spaces(content@))) {
            (Some(v), Some(d)) => v@ == d,
            (None, None) => true,
            _ => false,
        },
{
    let stripped = crate::strutil::strip_spaces(content);
    crate::repo::base64_decode(stripped.as_str())
}

/// What one GitHub record amounts to in the shared shape.
pub open spec fn entry_view(t: TreeEntry) -> crate::repo::TreeEntryView {
    crate::repo::TreeEntryView { path: t.path@, is_dir: t._type is Tree, sha: t.sha@ }
}

/// What a whole GitHub listing amounts to: each record converted, in order.
pub fn convert_entries(ts: &Vec<TreeEntry>) -> (r: Vec<crate::repo::TreeEntry>)
    ensures
        r@.map_values(|t: crate::repo::TreeEntry| t@) == ts@.map_values(
            |t: TreeEntry| entry_view(t),
        ),
{
    let mut r: Vec<crate::repo::TreeEntry> = Vec::new();
    let mut i: usize = 0;
    while i < ts.len()
        invariant
            i <= ts.len(),
            r@.map_values(|t: crate::repo::TreeEntry| t@) =~= ts@.subrange(
                0,
                i as int,
            ).map_values(|t: TreeEntry| entry_view(t)),
        decreases ts.len() - i,
    {
        let ghost prev = r@;
        let t = &ts[i];
        let e = crate::repo::TreeEntry {
            path: t.path.clone(),
            is_dir: t._type == EntryType::Tree,
            sha: t.sha.clone(),
        };
        let ghost ev = e@;
        proof {
            assert(ev == entry_view(ts@[i as int]));
        }
        r.push(e);
        proof {
            assert(r@.map_values(|t: crate::repo::TreeEntry| t@) =~= prev.map_values(
                |t: crate::repo::TreeEntry| t@,
            ).push(ev));
            assert(ts@.subrange(0, i + 1) =~= ts@.subrange(0, i as int).push(ts@[i as int]));
            assert(ts@.subrange(0, i + 1).map_values(|t: TreeEntry| entry_view(t)) =~= ts@.subrange(
                0,
                i as int,
            ).map_values(|t: TreeEntry| entry_view(t)).push(entry_view(ts@[i as int])));
        }
        i = i + 1;
    }
    proof {
        assert(ts@.subrange(0, ts@.len() as int) =~= ts@);
        assert(r@.map_values(|t: crate::repo::TreeEntry| t@) =~= ts@.map_values(
            |t: TreeEntry| entry_view(t),
        ));
    }
    r
}

impl From<TreeEntry> for crate::repo::TreeEntry {
    fn from(te: TreeEntry) -> (r: crate::repo::TreeEntry) {
        crate::repo::TreeEntry {
            is_dir: te._type == EntryType::Tree,
            path: te.path,
            sha: te.sha,
        }
    }
}

impl vstd::std_specs::convert::FromSpecImpl<TreeEntry> for crate::repo::TreeEntry {
    open spec fn obeys_from_spec() -> bool {
        true
    }

    open spec fn from_spec(te: TreeEntry) -> crate::repo::TreeEntry {
        crate::repo::TreeEntry {
            is_dir: te._type is Tree,
            path: te.path,
            sha: te.sha,
        }
    }
}

} // verus!
