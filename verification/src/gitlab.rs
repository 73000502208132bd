//! GitLab flavour: the shape of its tree listing and the parsing of its
//! paginated responses.

use vstd::prelude::*;

verus! {

/// Coordinates and credentials of one GitLab project.
pub struct Repo {
    pub token: Option<String>,
    pub id: u64,
    pub branch: Option<String>,
}

/// One record of a GitLab tree listing, as the API reports it.
#[derive(Debug)]
pub struct TreeEntry {
    pub id: String,
    pub name: String,
    pub _type: EntryType,
    pub path: String,
    pub mode: String,
}

/// The node kind a GitLab tree record carries.
#[derive(Copy, Clone, Debug, PartialEq, Eq, Structural)]
pub enum EntryType {
    Blob,
    Tree,
}

impl Repo {
    /// The address the first page of this project's tree is listed from; the
    /// configured branch is asked for where one is set.
    pub fn tree_url(&self) -> (r: String)
        ensures
            r@ == "https://gitlab.com/api/v4/projects/"@ + crate::strutil::dec_str(self.id as int)
                + "/repository/tree?recursive=1&per_page=100&pagination=keyset"@ + (
            match self.branch {
                Some(b) => "&ref="@ + b@,
                None => Seq::<char>::empty(),
            }),
    {
        let mut out = "https://gitlab.com/api/v4/projects/".to_owned();
        out.append(crate::strutil::u64_to_string(self.id).as_str());
        out.append("/repository/tree?recursive=1&per_page=100&pagination=keyset");
        match &self.branch {
            Some(b) => {
                out.append("&ref=");
                out.append(b.as_str());
            },
            None => {
                proof {
                    assert(out@ =~= out@ + Seq::<char>::empty());
                }
            },
        }
        out
    }

    /// The address one blob of this project is fetched from.
    pub fn blob_url(&self, sha: &str) -> (r: String)
        ensures
            r@ == "https://gitlab.com/api/v4/projects/"@ + crate::strutil::dec_str(self.id as int)
                + "/repository/blobs/"@ + sha@,
    {
        let mut out = "https://gitlab.com/api/v4/projects/".to_owned();
        out.append(crate::strutil::u64_to_string(self.id).as_str());
        out.append("/repository/blobs/");
        out.append(sha);
        out
    }
}

/// Decodes the payload of GitLab's blob endpoint: base64, trimmed of the
/// whitespace around it before decoding.  Nothing is returned where the
/// remainder is no valid base64.
pub fn decode_blob_content(content: &str) -> (r: Option<Vec<u8>>)
    ensures
        match (r, crate::repo::base64_decoded(crate::strutil::trimmed(content@))) {
            (Some(v), Some(d)) => v@ == d,
            (None, None) => true,
            _ => false,
        },
{
    let t = crate::strutil::trim_spaces(content);
    crate::repo::base64_decode(t.as_str())
}

/// What one GitLab record amounts to in the shared shape.
pub open spec fn entry_view(t: TreeEntry) -> crate::repo::TreeEntryView {
    crate::repo::TreeEntryView { path: t.path@, is_dir: t._type is Tree, sha: t.id@ }
}

/// What a whole GitLab listing amounts to: each record converted, in order.
pub fn convert_entries(ts: &Vec<TreeEntry>) -> (r: Vec<crate::repo::TreeEntry>)
    ensures
        r@.map_values(|t: crate::repo::TreeEntry| t@) == ts@.map_values(
            |t: TreeEntry| entry_view(t),
        ),
{
    let mut r: Vec<crate::repo::TreeEntry> = Vec::new();
    let mut i: usize = 0;
    while i < ts.len()
        invariant
            i <= ts.len(),
            r@.map_values(|t: crate::repo::TreeEntry| t@) =~= ts@.subrange(
                0,
                i as int,
            ).map_values(|t: TreeEntry| entry_view(t)),
        decreases ts.len() - i,
    {
        let ghost prev = r@;
        let t = &ts[i];
        let e = crate::repo::TreeEntry {
            path: t.path.clone(),
            is_dir: t._type == EntryType::Tree,
            sha: t.id.clone(),
        };
        let ghost ev = e@;
        proof {
            assert(ev == entry_view(ts@[i as int]));
        }
        r.push(e);
        proof {
            assert(r@.map_values(|t: crate::repo::TreeEntry| t@) =~= prev.map_values(
                |t: crate::repo::TreeEntry| t@,
            ).push(ev));
            assert(ts@.subrange(0, i + 1) =~= ts@.subrange(0, i as int).push(ts@[i as int]));
            assert(ts@.subrange(0, i + 1).map_values(|t: TreeEntry| entry_view(t)) =~= ts@.subrange(
                0,
                i as int,
            ).map_values(|t: TreeEntry| entry_view(t)).push(entry_view(ts@[i as int])));
        }
        i = i + 1;
    }
    proof {
        assert(ts@.subrange(0, ts@.len() as int) =~= ts@);
        assert(r@.map_values(|t: crate::repo::TreeEntry| t@) =~= ts@.map_values(
            |t: TreeEntry| entry_view(t),
        ));
    }
    r
}

impl From<TreeEntry> for crate::repo::TreeEntry {
    fn from(te: TreeEntry) -> (r: crate::repo::TreeEntry) {
        crate::repo::TreeEntry {
            is_dir: te._type == EntryType::Tree,
            path: te.path,
            sha: te.id,
        }
    }
}

impl vstd::std_specs::convert::FromSpecImpl<TreeEntry> for crate::repo::TreeEntry {
    open spec fn obeys_from_spec() -> bool {
        true
    }

    open spec fn from_spec(te: TreeEntry) -> crate::repo::TreeEntry {
        crate::repo::TreeEntry {
            is_dir: te._type is Tree,
            path: te.path,
            sha: te.id,
        }
    }
}

/// Position `i` holds the first `", "` of the sequence.
pub open spec fn sep_at(s: Seq<char>, i: int) -> bool {
    &&& 0 <= i
    &&& i + 2 <= s.len()
    &&& s.subrange(i, i + 2) == ", "@
    &&& forall|j: int| 0 <= j < i ==> #[trigger] s.subrange(j, j + 2) != ", "@
}

/// The sequence split at each `", "`, as the link header's parts are listed.
pub open spec fn split_parts_spec(s: Seq<char>) -> Seq<Seq<char>>
    decreases s.len(),
{
    if exists|i: int| sep_at(s, i) {
        let i = choose|i: int| sep_at(s, i);
        if 0 <= i && i + 2 <= s.len() {
            seq![s.take(i)] + split_parts_spec(s.skip(i + 2))
        } else {
            seq![s]
        }
    } else {
        seq![s]
    }
}

/// A part of the link header that names the next page: it carries the
/// `rel="next"` marker, with room for an address between the angle brackets.
pub open spec fn is_next_part(p: Seq<char>) -> bool {
    crate::strutil::ends_with(p, ">; rel=\"next\""@) && p.len() >= 14
}

/// The first part of the header that names the next page.
pub open spec fn first_next_part(parts: Seq<Seq<char>>) -> Option<Seq<char>>
    decreases parts.len(),
{
    if parts.len() == 0 {
        None
    } else if is_next_part(parts[0]) {
        Some(parts[0])
    } else {
        first_next_part(parts.drop_first())
    }
}

/// The address of the next page named by the link header, if any: the first
/// `rel="next"` part, short of its angle bracket and its marker.
pub open spec fn next_link(header: Seq<char>) -> Option<Seq<char>> {
    match first_next_part(split_parts_spec(header)) {
        Some(p) => Some(p.subrange(1, p.len() - 13)),
        None => None,
    }
}

/// The position of the first `", "` of the string, if any.
fn find_sep(s: &str) -> (r: Option<usize>)
    ensures
        match r {
            Some(i) => sep_at(s@, i as int),
            None => forall|i: int| !sep_at(s@, i),
        },
{
    proof {
        reveal_strlit(", ");
    }
    let n = s.unicode_len();
    if n < 2 {
        return None;
    }
    let mut j: usize = 0;
    while j <= n - 2
        invariant
            j <= n - 1,
            n == s@.len(),
            n >= 2,
            forall|i: int| 0 <= i < j ==> #[trigger] s@.subrange(i, i + 2) != ", "@,
        decreases n - j,
    {
        let c0 = s.get_char(j);
        let c1 = s.get_char(j + 1);
        if c0 == ',' && c1 == ' ' {
            proof {
                reveal_strlit(", ");
                assert(s@.subrange(j as int, j + 2) =~= ", "@);
            }
            return Some(j);
        }
        proof {
            reveal_strlit(", ");
            assert(s@.subrange(j as int, j + 2) != ", "@) by {
                reveal_strlit(", ");
                assert(s@.subrange(j as int, j + 2)[0] == s@[j as int]);
                assert(s@.subrange(j as int, j + 2)[1] == s@[j + 1]);
                assert(", "@[0] == ',' && ", "@[1] == ' ');
            }
        }
        j = j + 1;
    }
    None
}

/// The first `", "` position is the only one `sep_at` admits.
proof fn lemma_sep_at_unique(s: Seq<char>, i1: int, i2: int)
    requires
        sep_at(s, i1),
        sep_at(s, i2),
    ensures
        i1 == i2,
{
    if i1 < i2 {
        assert(s.subrange(i1, i1 + 2) != ", "@);
    } else if i2 < i1 {
        assert(s.subrange(i2, i2 + 2) != ", "@);
    }
}

/// The parts of the link header, split at each `", "`.
fn split_parts(s: &str) -> (parts: Vec<String>)
    ensures
        parts@.map_values(|p: String| p@) == split_parts_spec(s@),
    decreases s@.len(),
{
    match find_sep(s) {
        Some(i) => {
            let n = s.unicode_len();
            let head = s.substring_char(0, i).to_owned();
            let tail = s.substring_char(i + 2, n);
            proof {
                let k = choose|k: int| sep_at(s@, k);
                assert(sep_at(s@, k));
                lemma_sep_at_unique(s@, k, i as int);
                assert(s@.subrange(0, i as int) =~= s@.take(i as int));
                assert(s@.subrange(i + 2, n as int) =~= s@.skip(i + 2));
            }
            let mut rest = split_parts(tail.to_owned().as_str());
            proof {
                assert(tail@ == s@.skip(i + 2));
            }
            rest.insert(0, head);
            proof {
                assert(rest@.map_values(|p: String| p@) =~= seq![s@.take(i as int)]
                    + split_parts_spec(s@.skip(i + 2)));
            }
            rest
        },
        None => {
            let mut parts: Vec<String> = Vec::new();
            parts.push(s.to_owned());
            proof {
                assert(parts@.map_values(|p: String| p@) =~= seq![s@]);
            }
            parts
        },
    }
}

/// The address of the next page that the link header of a paginated GitLab
/// response names, if any.
pub fn next_page_url(header: &str) -> (r: Option<String>)
    ensures
        match (r, next_link(header@)) {
            (Some(u), Some(v)) => u@ == v,
            (None, None) => true,
            _ => false,
        },
{
    let parts = split_parts(header);
    let ghost pviews = parts@.map_values(|p: String| p@);
    let mut i: usize = 0;
    proof {
        assert(pviews.skip(0) =~= pviews);
    }
    while i < parts.len()
        invariant
            i <= parts.len(),
            pviews == parts@.map_values(|p: String| p@),
            pviews == split_parts_spec(header@),
            first_next_part(pviews) == first_next_part(pviews.skip(i as int)),
        decreases parts.len() - i,
    {
        proof {
            assert(pviews.skip(i as int)[0] == pviews[i as int]);
            assert(pviews.skip(i as int).drop_first() =~= pviews.skip(i + 1));
        }
        let p = &parts[i];
        let plen = p.as_str().unicode_len();
        if ends_with_marker(p.as_str()) && plen >= 14 {
            let u = p.as_str().substring_char(1, plen - 13);
            return Some(u.to_owned());
        }
        i = i + 1;
    }
    proof {
        assert(pviews.skip(pviews.len() as int) =~= Seq::<Seq<char>>::empty());
    }
    None
}

/// Whether a link header part carries the `rel="next"` marker.
fn ends_with_marker(p: &str) -> (r: bool)
    ensures
        r == crate::strutil::ends_with(p@, ">; rel=\"next\""@),
{
    crate::strutil::ends_with_exec(p, ">; rel=\"next\"")
}

} // verus!
