//! The shape of a provider's tree listing, independent of the provider kind,
//! and the decoding shared by the providers' blob payloads.

use base64::prelude::BASE64_STANDARD;
use base64::Engine;

use vstd::prelude::*;

verus! {

/// What standard base64 decoding makes of a character sequence: the decoded
/// bytes, or nothing where the sequence is no valid base64.
pub uninterp spec fn base64_decoded(s: Seq<char>) -> Option<Seq<u8>>;

/// Relies on base64::Engine::decode with the standard alphabet: whether the
/// input decodes, and to what, depends on its characters alone.
#[verifier::external_body]
pub fn base64_decode(s: &str) -> (r: Option<Vec<u8>>)
    ensures
        match (r, base64_decoded(s@)) {
            (Some(v), Some(d)) => v@ == d,
            (None, None) => true,
            _ => false,
        },
{
    BASE64_STANDARD.decode(s).ok()
}

/// One node (file or directory) in one provider's tree listing.
#[derive(Debug)]
pub struct TreeEntry {
    pub path: String,
    pub is_dir: bool,
    pub sha: String,
}

impl Clone for TreeEntry {
    fn clone(&self) -> (r: Self)
        ensures
            r == *self,
    {
        TreeEntry { path: self.path.clone(), is_dir: self.is_dir, sha: self.sha.clone() }
    }
}

/// Mathematical model of a [`TreeEntry`].
pub ghost struct TreeEntryView {
    pub path: Seq<char>,
    pub is_dir: bool,
    pub sha: Seq<char>,
}

impl View for TreeEntry {
    type V = TreeEntryView;

    open spec fn view(&self) -> TreeEntryView {
        TreeEntryView { path: self.path@, is_dir: self.is_dir, sha: self.sha@ }
    }
}

/// A configured remote source, of one of the supported flavours.  The
/// variants hold only the plain values (credentials, coordinates) that the
/// corresponding REST calls are made with; the calls themselves are not part
/// of this library.
pub enum Repo {
    Github(crate::github::Repo),
    Gitlab(crate::gitlab::Repo),
}

} // verus!
