//! Links to a file or a folder, with the key behind the hash sign.

use vstd::prelude::*;
use vstd::string::StrSliceExecFns;

use crate::base64url;
use crate::text;

verus! {

/// What a link leads to.
#[derive(Debug)]
pub enum MegaLink {
    /// One file, with its node key.
    File { id: String, raw_key: [u8; 32] },
    /// A folder, with the key that its nodes' keys are encrypted with.
    Folder { id: String, folder_key: [u8; 16] },
}

/// Why a text is no link.
#[derive(Clone, Copy, Debug, PartialEq, Eq, Structural)]
pub enum LinkError {
    /// It has no hash sign.
    NoHash,
    /// The key of a file is no unpadded URL-safe base64.
    FileKeyBase64,
    /// The key of a file has not 32 bytes.
    FileKeyLength,
    /// The key of a folder is no unpadded URL-safe base64.
    FolderKeyBase64,
    /// The key of a folder has this number of bytes in place of 16.
    FolderKeyLength(usize),
    /// It names neither a file nor a folder.
    Unrecognised,
}

/// What a link leads to, as texts and bytes.
pub enum LinkView {
    File { id: Seq<char>, raw_key: Seq<u8> },
    Folder { id: Seq<char>, folder_key: Seq<u8> },
}

impl View for MegaLink {
    type V = LinkView;

    open spec fn view(&self) -> LinkView {
        match self {
            MegaLink::File { id, raw_key } => LinkView::File { id: id@, raw_key: raw_key@ },
            MegaLink::Folder { id, folder_key } => LinkView::Folder {
                id: id@,
                folder_key: folder_key@,
            },
        }
    }
}

/// `path` has `marker` in it.
pub open spec fn has_marker(path: Seq<char>, marker: Seq<char>) -> bool {
    text::index_of_text(path, marker) < path.len()
}

/// What stands in `path` between the first `marker` and the next, or the end, less the slashes at
/// its back.
pub open spec fn id_behind(path: Seq<char>, marker: Seq<char>) -> Seq<char> {
    let rest = path.skip(text::index_of_text(path, marker) + marker.len());
    text::strip_back(rest.take(text::index_of_text(rest, marker)), '/')
}

/// What the link `url` leads to.
pub open spec fn link_of(url: Seq<char>) -> Result<LinkView, LinkError> {
    let link = text::trim(url);
    let sign = text::index_of(link, '#');
    let path = link.take(sign);
    let key = base64url::base64url_decoded(link.skip(sign + 1));
    if sign == link.len() {
        Err(LinkError::NoHash)
    } else if has_marker(path, "/file/"@) {
        match key {
            None => Err(LinkError::FileKeyBase64),
            Some(raw_key) => if raw_key.len() != 32 {
                Err(LinkError::FileKeyLength)
            } else {
                Ok(LinkView::File { id: id_behind(path, "/file/"@), raw_key })
            },
        }
    } else if has_marker(path, "/folder/"@) {
        match key {
            None => Err(LinkError::FolderKeyBase64),
            Some(folder_key) => if folder_key.len() != 16 {
                Err(LinkError::FolderKeyLength(folder_key.len() as usize))
            } else {
                Ok(LinkView::Folder { id: id_behind(path, "/folder/"@), folder_key })
            },
        }
    } else {
        Err(LinkError::Unrecognised)
    }
}

/// The id behind `marker` in `path`, where the marker occurs.
fn id_after(path: &str, marker: &str) -> (r: Option<String>)
    requires
        marker@.len() > 0,
    ensures
        r is Some <==> has_marker(path@, marker@),
        r is Some ==> r->0@ == id_behind(path@, marker@),
{
    let cs = text::chars_of(path);
    let pat = text::chars_of(marker);
    let at: usize = text::find_text(cs.as_slice(), pat.as_slice());
    proof {
        text::lemma_index_of_text(path@, marker@);
    }
    if at == cs.len() {
        return None;
    }
    let rest = path.substring_char(at + pat.len(), cs.len());
    assert(rest@ =~= path@.skip(at + marker@.len()));
    let rest_cs = text::chars_of(rest);
    let end: usize = text::find_text(rest_cs.as_slice(), pat.as_slice());
    proof {
        text::lemma_index_of_text(rest@, marker@);
    }
    let piece = rest.substring_char(0, end);
    assert(piece@ =~= rest@.take(end as int));
    Some(text::stripped_back(piece, '/').to_owned())
}

/// Reads a link.
pub fn parse_link(url: &str) -> (r: Result<MegaLink, LinkError>)
    ensures
        match r {
            Ok(link) => link_of(url@) == Ok::<LinkView, LinkError>(link@),
            Err(e) => link_of(url@) == Err::<LinkView, LinkError>(e),
        },
{
    let link = text::trimmed(url);
    proof {
        reveal_strlit("/file/");
        reveal_strlit("/folder/");
        text::lemma_index_of(link@, '#');
    }
    match text::cut(link, '#') {
        None => Err(LinkError::NoHash),
        Some((path, hash)) => {
            if let Some(id) = id_after(path, "/file/") {
                match base64url::decode(hash) {
                    None => Err(LinkError::FileKeyBase64),
                    Some(raw) => {
                        if raw.len() != 32 {
                            return Err(LinkError::FileKeyLength);
                        }
                        let mut raw_key: [u8; 32] = [0u8; 32];
                        let mut i: usize = 0;
                        while i < 32
                            invariant
                                i <= 32,
                                raw@.len() == 32,
                                forall|j: int| 0 <= j < i ==> raw_key@[j] == raw@[j],
                            decreases 32 - i,
                        {
                            raw_key[i] = raw[i];
                            i = i + 1;
                        }
                        assert(raw_key@ =~= raw@);
                        Ok(MegaLink::File { id, raw_key })
                    },
                }
            } else if let Some(id) = id_after(path, "/folder/") {
                match base64url::decode(hash) {
                    None => Err(LinkError::FolderKeyBase64),
                    Some(raw) => {
                        if raw.len() != 16 {
                            return Err(LinkError::FolderKeyLength(raw.len()));
                        }
                        let mut folder_key: [u8; 16] = [0u8; 16];
                        let mut i: usize = 0;
                        while i < 16
                            invariant
                                i <= 16,
                                raw@.len() == 16,
                                forall|j: int| 0 <= j < i ==> folder_key@[j] == raw@[j],
                            decreases 16 - i,
                        {
                            folder_key[i] = raw[i];
                            i = i + 1;
                        }
                        assert(folder_key@ =~= raw@);
                        Ok(MegaLink::Folder { id, folder_key })
                    },
                }
            } else {
                Err(LinkError::Unrecognised)
            }
        },
    }
}

/// The first `marker` in `front + marker + id` stands behind `front`, and what it names is `id`,
/// where `front` does not run into a marker before, and `id` has no marker and no slash at its
/// back.
proof fn lemma_id_behind(front: Seq<char>, marker: Seq<char>, id: Seq<char>)
    requires
        marker.len() > 0,
        forall|j: int| 0 <= j < front.len() ==> !text::occurs_at(front + marker, marker, j),
        !has_marker(id, marker),
        id.len() > 0 ==> id.last() != '/',
    ensures
        has_marker(front + marker + id, marker),
        id_behind(front + marker + id, marker) == id,
{
    let path = front + marker + id;
    let at = text::index_of_text(path, marker);
    text::lemma_index_of_text(path, marker);
    assert(path.subrange(front.len() as int, (front.len() + marker.len()) as int) =~= marker);
    assert(text::occurs_at(path, marker, front.len() as int));
    assert(at == front.len()) by {
        if at < front.len() {
            assert(path.subrange(at, at + marker.len()) =~= (front + marker).subrange(
                at,
                at + marker.len(),
            ));
            assert(text::occurs_at(front + marker, marker, at));
        }
    }
    let rest = path.skip(at + marker.len());
    assert(rest =~= id);
    text::lemma_index_of_text(id, marker);
    assert(id.take(id.len() as int) =~= id);
}

/// White space at the front of a link makes no difference to it, nor to where its markers are.
proof fn lemma_white_front(front: Seq<char>, marker: Seq<char>, id: Seq<char>, key: Seq<char>)
    requires
        front.len() > 0,
        text::is_white_space(front[0]),
        forall|j: int| 0 <= j < front.len() ==> !text::occurs_at(front + marker, marker, j),
    ensures
        link_of(front + marker + id + key) == link_of(front.skip(1) + marker + id + key),
        forall|j: int|
            0 <= j < front.len() - 1 ==> !text::occurs_at(front.skip(1) + marker, marker, j),
{
    let url = front + marker + id + key;
    let less = front.skip(1);
    assert(url.skip(1) =~= less + marker + id + key);
    assert(url[0] == front[0]);
    assert forall|j: int| 0 <= j < front.len() - 1 implies !text::occurs_at(
        less + marker,
        marker,
        j,
    ) by {
        if text::occurs_at(less + marker, marker, j) {
            assert((less + marker).subrange(j, j + marker.len()) =~= (front + marker).subrange(
                j + 1,
                j + 1 + marker.len(),
            ));
            assert(text::occurs_at(front + marker, marker, j + 1));
        }
    }
}

/// A link in two parts around a hash sign falls apart at it, and has no white space to trim.
proof fn lemma_link_parts(path: Seq<char>, hash: Seq<char>)
    requires
        path.len() > 0,
        !text::is_white_space(path[0]),
        !path.contains('#'),
        hash.len() > 0,
        base64url::is_base64url(hash),
    ensures
        ({
            let url = path + "#"@ + hash;
            &&& text::trim(url) == url
            &&& text::index_of(url, '#') == path.len()
            &&& path.len() < url.len()
            &&& url.take(path.len() as int) == path
            &&& url.skip(path.len() as int + 1) == hash
        }),
{
    reveal_strlit("#");
    let url = path + "#"@ + hash;
    assert(url[0] == path[0]);
    assert(url.last() == hash[hash.len() - 1]);
    assert(base64url::sextet(hash[hash.len() - 1]) >= 0);
    assert forall|j: int| 0 <= j < path.len() implies url[j] != '#' by {
        if url[j] == '#' {
            assert(path[j] == '#');
            assert(path.contains('#'));
        }
    }
    text::lemma_index_of_is(url, '#', path.len() as int);
    assert(url.take(path.len() as int) =~= path);
    assert(url.skip(path.len() as int + 1) =~= hash);
}

/// A link to a file is read back: from an address, the id of the file behind `/file/` and the
/// encoded key behind the hash sign come that id and that key.
pub proof fn law_file_link(front: Seq<char>, id: Seq<char>, hash: Seq<char>)
    requires
        forall|j: int|
            0 <= j < front.len() ==> !text::occurs_at(front + "/file/"@, "/file/"@, j),
        !front.contains('#'),
        !id.contains('#'),
        !has_marker(id, "/file/"@),
        id.len() > 0 ==> id.last() != '/',
        base64url::is_base64url(hash),
        base64url::base64url_bytes(hash).len() == 32,
    ensures
        link_of(front + "/file/"@ + id + ("#"@ + hash)) == Ok::<LinkView, LinkError>(
            LinkView::File { id, raw_key: base64url::base64url_bytes(hash) },
        ),
    decreases front.len(),
{
    reveal_strlit("/file/");
    if front.len() > 0 && text::is_white_space(front[0]) {
        lemma_white_front(front, "/file/"@, id, "#"@ + hash);
        lemma_no_hash_behind(front);
        law_file_link(front.skip(1), id, hash);
    } else {
        let path = front + "/file/"@ + id;
        lemma_no_hash(front, "/file/"@, id);
        lemma_id_behind(front, "/file/"@, id);
        lemma_link_parts(path, hash);
        assert(path + ("#"@ + hash) =~= path + "#"@ + hash);
    }
}

/// A link to a folder is read back: from an address, the id of the folder behind `/folder/` and
/// the encoded key behind the hash sign come that id and that key.
pub proof fn law_folder_link(front: Seq<char>, id: Seq<char>, hash: Seq<char>)
    requires
        forall|j: int|
            0 <= j < front.len() ==> !text::occurs_at(front + "/folder/"@, "/folder/"@, j),
        !has_marker(front + "/folder/"@ + id, "/file/"@),
        !front.contains('#'),
        !id.contains('#'),
        !has_marker(id, "/folder/"@),
        id.len() > 0 ==> id.last() != '/',
        base64url::is_base64url(hash),
        base64url::base64url_bytes(hash).len() == 16,
    ensures
        link_of(front + "/folder/"@ + id + ("#"@ + hash)) == Ok::<LinkView, LinkError>(
            LinkView::Folder { id, folder_key: base64url::base64url_bytes(hash) },
        ),
    decreases front.len(),
{
    reveal_strlit("/folder/");
    reveal_strlit("/file/");
    let path = front + "/folder/"@ + id;
    if front.len() > 0 && text::is_white_space(front[0]) {
        let less = front.skip(1) + "/folder/"@ + id;
        lemma_white_front(front, "/folder/"@, id, "#"@ + hash);
        lemma_no_hash_behind(front);
        assert(!has_marker(less, "/file/"@)) by {
            text::lemma_index_of_text(less, "/file/"@);
            text::lemma_index_of_text(path, "/file/"@);
            let j = text::index_of_text(less, "/file/"@);
            if j < less.len() {
                assert(less.subrange(j, j + 6) =~= path.subrange(j + 1, j + 7));
                assert(text::occurs_at(path, "/file/"@, j + 1));
            }
        }
        law_folder_link(front.skip(1), id, hash);
    } else {
        lemma_no_hash(front, "/folder/"@, id);
        lemma_id_behind(front, "/folder/"@, id);
        lemma_link_parts(path, hash);
        assert(path + ("#"@ + hash) =~= path + "#"@ + hash);
    }
}

/// What stands behind the first character has no hash sign where the whole has none.
proof fn lemma_no_hash_behind(front: Seq<char>)
    requires
        front.len() > 0,
        !front.contains('#'),
    ensures
        !front.skip(1).contains('#'),
{
    let less = front.skip(1);
    if less.contains('#') {
        let j = choose|j: int| 0 <= j < less.len() && less[j] == '#';
        assert(front[j + 1] == '#');
    }
}

/// Three texts without a hash sign make one without.
proof fn lemma_no_hash(front: Seq<char>, marker: Seq<char>, id: Seq<char>)
    requires
        !front.contains('#'),
        !marker.contains('#'),
        !id.contains('#'),
    ensures
        !(front + marker + id).contains('#'),
{
    let path = front + marker + id;
    if path.contains('#') {
        let j = choose|j: int| 0 <= j < path.len() && path[j] == '#';
        if j < front.len() {
            assert(front[j] == '#');
        } else if j < front.len() + marker.len() {
            assert(marker[j - front.len()] == '#');
        } else {
            assert(id[j - front.len() - marker.len()] == '#');
        }
    }
}

/// The link to follow: the one given as an argument, or else the one in the text `saved`, less the
/// white space around it. There is none where that is empty.
pub open spec fn chosen_link(arg: Option<Seq<char>>, saved: Option<Seq<char>>) -> Option<
    Seq<char>,
> {
    let link = match arg {
        Some(link) => link,
        None => match saved {
            Some(text) => text::trim(text),
            None => seq![],
        },
    };
    if link.len() > 0 {
        Some(link)
    } else {
        None
    }
}

/// Chooses the link to follow.
pub fn link_argument<'a>(arg: Option<&'a str>, saved: Option<&'a str>) -> (r: Option<&'a str>)
    ensures
        r.deep_view() == chosen_link(arg.deep_view(), saved.deep_view()),
        arg matches Some(link) ==> (r is Some <==> link@.len() > 0) && (r is Some ==> r->0@
            == link@),
        arg is None && saved is None ==> r is None,
        arg is None && saved is Some ==> (r is Some <==> text::trim(saved->0@).len() > 0) && (
        r is Some ==> r->0@ == text::trim(saved->0@)),
{
    let link = match arg {
        Some(link) => link,
        None => match saved {
            Some(text) => text::trimmed(text),
            None => {
                return None;
            },
        },
    };
    if link.is_empty() {
        None
    } else {
        Some(link)
    }
}

/// An argument decides alone, whatever was saved: it is the link as it stands, unless it is empty.
/// Without one, what was saved between white space is the link, unless there is nothing but white
/// space.
pub proof fn law_chosen_link(
    link: Seq<char>,
    front: Seq<char>,
    back: Seq<char>,
    saved: Option<Seq<char>>,
)
    requires
        forall|i: int| 0 <= i < front.len() ==> text::is_white_space(#[trigger] front[i]),
        forall|i: int| 0 <= i < back.len() ==> text::is_white_space(#[trigger] back[i]),
    ensures
        link.len() > 0 ==> chosen_link(Some(link), saved) == Some(link),
        chosen_link(Some(Seq::empty()), saved) is None,
        chosen_link(None, None) is None,
        chosen_link(None, Some(front)) is None,
        link.len() > 0 && !text::is_white_space(link[0]) && !text::is_white_space(link.last())
            ==> chosen_link(None, Some(front + link + back)) == Some(link),
{
    let (a, b) = text::law_trim(front);
    assert(a == b);
    if link.len() > 0 && !text::is_white_space(link[0]) && !text::is_white_space(link.last()) {
        let s = front + link + back;
        let n = front.len() as int;
        let m = n + link.len();
        let (a, b) = text::law_trim(s);
        assert(s[n] == link[0] && s[m - 1] == link.last());
        assert(a <= n && m <= b);
        if a < n {
            assert(s[a] == front[a]);
        }
        if m < b {
            assert(s[b - 1] == back[b - 1 - m]);
        }
        assert(s.subrange(n, m) =~= link);
    }
}

/// A marker is in a path exactly where it stands at some place in it.
pub proof fn law_has_marker(path: Seq<char>, marker: Seq<char>)
    requires
        marker.len() > 0,
    ensures
        has_marker(path, marker) <==> exists|j: int| #[trigger] text::occurs_at(path, marker, j),
{
    text::lemma_index_of_text(path, marker);
    let i = text::index_of_text(path, marker);
    if has_marker(path, marker) {
        assert(text::occurs_at(path, marker, i));
    } else {
        assert forall|j: int| !#[trigger] text::occurs_at(path, marker, j) by {
            if text::occurs_at(path, marker, j) {
                assert(j < path.len());
            }
        }
    }
}

/// The id is what stands between the first marker and the next, or the end, less slashes at its
/// back.
pub proof fn law_id_behind(
    front: Seq<char>,
    marker: Seq<char>,
    id: Seq<char>,
    rest: Seq<char>,
)
    requires
        marker.len() > 0,
        forall|j: int|
            0 <= j < front.len() ==> !text::occurs_at(front + marker + id + rest, marker, j),
        forall|j: int| 0 <= j < id.len() ==> !text::occurs_at(id + rest, marker, j),
        rest.len() == 0 || text::occurs_at(rest, marker, 0),
    ensures
        id_behind(front + marker + id + rest, marker) == text::strip_back(id, '/'),
{
    let path = front + marker + id + rest;
    text::lemma_index_of_text(path, marker);
    assert(path.subrange(front.len() as int, (front.len() + marker.len()) as int) =~= marker);
    assert(text::occurs_at(path, marker, front.len() as int));
    assert(text::index_of_text(path, marker) == front.len());
    let behind = path.skip(front.len() as int + marker.len());
    assert(behind =~= id + rest);
    text::lemma_index_of_text(behind, marker);
    let end = text::index_of_text(behind, marker);
    assert(end == id.len()) by {
        if rest.len() > 0 {
            assert(behind.subrange(id.len() as int, (id.len() + marker.len()) as int)
                =~= rest.subrange(0, marker.len() as int));
            assert(text::occurs_at(behind, marker, id.len() as int));
        }
        if end < id.len() {
            assert(text::occurs_at(id + rest, marker, end));
        }
    }
    assert(behind.take(end) =~= id);
}

/// Every fault of a link in its place. A link without a hash sign has none to part at. Of any other,
/// what stands behind the first hash sign is the key: 32 bytes for a file, 16 for a folder.
pub proof fn law_link_faults(path: Seq<char>, hash: Seq<char>)
    requires
        path.len() > 0 ==> !text::is_white_space(path[0]),
        hash.len() > 0 ==> !text::is_white_space(hash.last()),
        !path.contains('#'),
    ensures
        ({
            let r = link_of(path.push('#') + hash);
            let is_key = base64url::is_base64url(hash);
            let len = base64url::base64url_bytes(hash).len();
            let file = has_marker(path, "/file/"@);
            let folder = has_marker(path, "/folder/"@);
            &&& r == Err::<LinkView, LinkError>(LinkError::Unrecognised) <==> !file && !folder
            &&& r == Err::<LinkView, LinkError>(LinkError::FileKeyBase64) <==> file && !is_key
            &&& r == Err::<LinkView, LinkError>(LinkError::FileKeyLength) <==> file && is_key && len
                != 32
            &&& r == Err::<LinkView, LinkError>(LinkError::FolderKeyBase64) <==> !file && folder
                && !is_key
            &&& !file && folder && is_key && len != 16 ==> r == Err::<LinkView, LinkError>(
                LinkError::FolderKeyLength(len as usize),
            )
            &&& r is Ok <==> is_key && (file && len == 32 || !file && folder && len == 16)
            &&& r != Err::<LinkView, LinkError>(LinkError::NoHash)
        }),
        link_of(path) == Err::<LinkView, LinkError>(LinkError::NoHash),
{
    let url = path.push('#') + hash;
    assert(url[path.len() as int] == '#');
    assert(url[0] == if path.len() > 0 {
        path[0]
    } else {
        '#'
    });
    assert(url.last() == if hash.len() > 0 {
        hash.last()
    } else {
        '#'
    });
    text::law_trim_again(url);
    assert forall|j: int| 0 <= j < path.len() implies url[j] != '#' by {
        if url[j] == '#' {
            assert(path[j] == '#');
            assert(path.contains('#'));
        }
    }
    text::lemma_index_of_is(url, '#', path.len() as int);
    assert(url.take(path.len() as int) =~= path);
    assert(url.skip(path.len() as int + 1) =~= hash);
    let (a, b) = text::law_trim(path);
    let t = text::trim(path);
    text::lemma_index_of(t, '#');
    if text::index_of(t, '#') < t.len() {
        assert(path[a + text::index_of(t, '#')] == '#');
        assert(path.contains('#'));
    }
}

/// White space around a link makes no difference.
pub proof fn law_link_trimmed(url: Seq<char>)
    ensures
        link_of(url) == link_of(text::trim(url)),
{
    text::law_trim_again(url);
}

} // verus!
