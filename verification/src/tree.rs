//! The nodes of a folder: their names, their paths and the files among them.

use vstd::hash_map::StringHashMap;
use vstd::prelude::*;

use crate::base64url;
use crate::crypto;
use crate::crypto::NodeKeyError;
use crate::json::Json;
use crate::path;
use crate::text;

verus! {

/// A file of a folder, ready to be downloaded.
#[derive(Debug)]
pub struct FileEntry {
    /// What the server knows it by.
    pub handle: String,
    /// The names of the nodes that it is below, from the top down, and its own.
    pub names: Vec<String>,
    /// Where it goes on a Unix system, seen from where the folder goes.
    pub path: String,
    /// Its size in bytes.
    pub size: u64,
    /// The key of its contents.
    pub aes_key: [u8; 16],
    /// The counter that its contents start at.
    pub iv: [u8; 16],
}

/// Why a file of a folder was left out.
#[derive(Clone, Copy, Debug, PartialEq, Eq, Structural)]
pub enum SkipReason {
    /// Its key field offers no key.
    NoKey,
    /// Its key cannot be read.
    BadKey(NodeKeyError),
}

/// A file of a folder that was left out.
#[derive(Debug)]
pub struct Skipped {
    pub handle: String,
    pub reason: SkipReason,
}

/// The files of a folder, and those that were left out.
#[derive(Debug)]
pub struct FileList {
    pub files: Vec<FileEntry>,
    pub skipped: Vec<Skipped>,
}

/// A `FileEntry` as texts and bytes.
pub struct EntryView {
    pub handle: Seq<char>,
    pub names: Seq<Seq<char>>,
    pub path: Seq<char>,
    pub size: u64,
    pub aes_key: Seq<u8>,
    pub iv: Seq<u8>,
}

impl View for FileEntry {
    type V = EntryView;

    open spec fn view(&self) -> EntryView {
        EntryView {
            handle: self.handle@,
            names: text::text_views(self.names@),
            path: self.path@,
            size: self.size,
            aes_key: self.aes_key@,
            iv: self.iv@,
        }
    }
}

impl View for Skipped {
    type V = (Seq<char>, SkipReason);

    open spec fn view(&self) -> (Seq<char>, SkipReason) {
        (self.handle@, self.reason)
    }
}

/// The views of a list of entries.
pub open spec fn entry_views(v: Seq<FileEntry>) -> Seq<EntryView> {
    v.map_values(|e: FileEntry| e@)
}

/// The views of a list of files that were left out.
pub open spec fn skipped_views(v: Seq<Skipped>) -> Seq<(Seq<char>, SkipReason)> {
    v.map_values(|e: Skipped| e@)
}

/// The text in the member `name` of a node, empty where there is none.
pub open spec fn text_or_empty(node: Json, name: Seq<char>) -> Seq<char> {
    match node.text_field(name) {
        Some(s) => s,
        None => seq![],
    }
}

/// The handle of a node.
pub open spec fn handle(node: Json) -> Seq<char> {
    text_or_empty(node, "h"@)
}

/// The key that a node's attributes are encrypted with. Where the node's own key is missing or
/// cannot be read, it is the folder's.
pub open spec fn attrs_key(node: Json, folder_key: Seq<u8>) -> Seq<u8> {
    let kind = match node.unsigned_field("t"@) {
        Some(t) => t,
        None => 0,
    };
    match crypto::field_key(text_or_empty(node, "k"@)) {
        None => folder_key,
        Some(enc) => if kind == 1 || kind == 2 {
            match base64url::base64url_decoded(text::trim(enc)) {
                Some(data) => if data.len() == 16 {
                    crypto::aes128_decrypt_block(folder_key, data)
                } else {
                    folder_key
                },
                None => folder_key,
            }
        } else {
            match crypto::node_key(enc, folder_key) {
                Ok(raw) => crypto::folded_key(raw),
                Err(_) => folder_key,
            }
        },
    }
}

/// The name of a node: from its attributes, or else its handle.
pub open spec fn node_name(node: Json, folder_key: Seq<u8>) -> Seq<char> {
    match node.text_field("a"@) {
        None => handle(node),
        Some(at) => crypto::name_or_else(
            crypto::attrs_name(at, attrs_key(node, folder_key)),
            handle(node),
        ),
    }
}

/// The node key of a file, or why it has none.
pub open spec fn file_key(node: Json, folder_key: Seq<u8>) -> Result<Seq<u8>, SkipReason> {
    match crypto::field_key(text_or_empty(node, "k"@)) {
        None => Err(SkipReason::NoKey),
        Some(enc) => match crypto::node_key(enc, folder_key) {
            Ok(raw) => Ok(raw),
            Err(e) => Err(SkipReason::BadKey(e)),
        },
    }
}

/// What is known of a node once its name and its key are decrypted.
#[derive(Debug)]
pub struct NodeInfo {
    /// What the server knows it by.
    pub handle: String,
    /// The handle of the node that it is below; empty where there is none.
    pub parent: String,
    /// Its name.
    pub name: String,
    /// Its kind: 0 for a file, 1 for a folder, 2 for the root.
    pub kind: Option<u64>,
    /// Its size in bytes.
    pub size: u64,
    /// Its node key, or why it has none.
    pub key: Result<[u8; 32], SkipReason>,
}

/// A `NodeInfo` as texts and bytes.
pub struct NodeView {
    pub handle: Seq<char>,
    pub parent: Seq<char>,
    pub name: Seq<char>,
    pub kind: Option<u64>,
    pub size: u64,
    pub key: Result<Seq<u8>, SkipReason>,
}

impl View for NodeInfo {
    type V = NodeView;

    open spec fn view(&self) -> NodeView {
        NodeView {
            handle: self.handle@,
            parent: self.parent@,
            name: self.name@,
            kind: self.kind,
            size: self.size,
            key: match self.key {
                Ok(raw) => Ok(raw@),
                Err(e) => Err(e),
            },
        }
    }
}

/// The views of a list of nodes.
pub open spec fn node_views(v: Seq<NodeInfo>) -> Seq<NodeView> {
    v.map_values(|n: NodeInfo| n@)
}

/// What the server's node `node` is once it is decrypted.
pub open spec fn node_of(node: Json, folder_key: Seq<u8>) -> NodeView {
    NodeView {
        handle: handle(node),
        parent: text_or_empty(node, "p"@),
        name: node_name(node, folder_key),
        kind: node.unsigned_field("t"@),
        size: match node.unsigned_field("s"@) {
            Some(s) => s,
            None => 0,
        },
        key: file_key(node, folder_key),
    }
}

/// What the server's nodes are once they are decrypted.
pub open spec fn nodes_of(nodes: Seq<Json>, folder_key: Seq<u8>) -> Seq<NodeView> {
    nodes.map_values(|node: Json| node_of(node, folder_key))
}

/// The nodes by handle, each with the handle of its parent and its name. Where a handle occurs
/// twice, the later node counts.
pub open spec fn info_of(nodes: Seq<NodeView>) -> Map<Seq<char>, (Seq<char>, Seq<char>)>
    decreases nodes.len(),
{
    if nodes.len() == 0 {
        Map::empty()
    } else {
        let last = nodes.last();
        info_of(nodes.drop_last()).insert(last.handle, (last.parent, last.name))
    }
}

/// The handle of the first node that is a root; empty where there is none.
pub open spec fn root_of(nodes: Seq<NodeView>) -> Seq<char>
    decreases nodes.len(),
{
    if nodes.len() == 0 {
        seq![]
    } else if nodes[0].kind == Some(2u64) {
        nodes[0].handle
    } else {
        root_of(nodes.skip(1))
    }
}

/// The way from a node up to the root ends at `h`: it is unknown, has no parent, or is the root.
pub open spec fn is_top(
    info: Map<Seq<char>, (Seq<char>, Seq<char>)>,
    root: Seq<char>,
    h: Seq<char>,
) -> bool {
    !info.contains_key(h) || info[h].0.len() == 0 || h == root
}

/// The names on the way down to the node `h` from the top, if the way up from it takes fewer than
/// `steps` steps. A node that is unknown counts by its handle.
pub open spec fn way_within(
    info: Map<Seq<char>, (Seq<char>, Seq<char>)>,
    root: Seq<char>,
    h: Seq<char>,
    steps: nat,
) -> Option<Seq<Seq<char>>>
    decreases steps,
{
    if steps == 0 {
        None
    } else if !info.contains_key(h) {
        Some(seq![h])
    } else if is_top(info, root, h) {
        Some(seq![info[h].1])
    } else {
        match way_within(info, root, info[h].0, (steps - 1) as nat) {
            Some(above) => Some(above.push(info[h].1)),
            None => None,
        }
    }
}

/// The way up from the node `h` comes to an end.
pub open spec fn way_ends(
    info: Map<Seq<char>, (Seq<char>, Seq<char>)>,
    root: Seq<char>,
    h: Seq<char>,
) -> bool {
    exists|steps: nat| #[trigger] way_within(info, root, h, steps) is Some
}

/// The names on the way down to the node `h` from the top.
pub open spec fn way_of(
    info: Map<Seq<char>, (Seq<char>, Seq<char>)>,
    root: Seq<char>,
    h: Seq<char>,
) -> Seq<Seq<char>> {
    let steps = choose|steps: nat| #[trigger] way_within(info, root, h, steps) is Some;
    way_within(info, root, h, steps)->0
}

/// The path of the node `h` from the top down.
pub open spec fn path_of(
    info: Map<Seq<char>, (Seq<char>, Seq<char>)>,
    root: Seq<char>,
    h: Seq<char>,
) -> Seq<char> {
    path::collect(way_of(info, root, h))
}

/// The node is a file.
pub open spec fn is_file(node: NodeView) -> bool {
    node.kind == Some(0u64)
}

/// The node is a file that can be downloaded.
pub open spec fn is_listed(node: NodeView) -> bool {
    is_file(node) && node.key is Ok
}

/// What is downloaded for the file `node` of a folder.
pub open spec fn entry_of(
    node: NodeView,
    info: Map<Seq<char>, (Seq<char>, Seq<char>)>,
    root: Seq<char>,
) -> EntryView {
    EntryView {
        handle: node.handle,
        names: way_of(info, root, node.handle),
        path: path::below_first(path_of(info, root, node.handle)),
        size: node.size,
        aes_key: crypto::folded_key(node.key->Ok_0),
        iv: crypto::folded_iv(node.key->Ok_0),
    }
}

/// The files among `nodes` that can be downloaded, in order.
pub open spec fn entries_of(
    nodes: Seq<NodeView>,
    info: Map<Seq<char>, (Seq<char>, Seq<char>)>,
    root: Seq<char>,
) -> Seq<EntryView>
    decreases nodes.len(),
{
    if nodes.len() == 0 {
        seq![]
    } else {
        let before = entries_of(nodes.drop_last(), info, root);
        if is_listed(nodes.last()) {
            before.push(entry_of(nodes.last(), info, root))
        } else {
            before
        }
    }
}

/// The files among `nodes` that cannot be downloaded, in order.
pub open spec fn skipped_of(nodes: Seq<NodeView>) -> Seq<(Seq<char>, SkipReason)>
    decreases nodes.len(),
{
    if nodes.len() == 0 {
        seq![]
    } else {
        let before = skipped_of(nodes.drop_last());
        if is_file(nodes.last()) && nodes.last().key is Err {
            before.push((nodes.last().handle, nodes.last().key->Err_0))
        } else {
            before
        }
    }
}

/// The way up from each file that can be downloaded comes to an end: no such file is below a
/// circle of nodes.
pub open spec fn ways_end(nodes: Seq<NodeView>) -> bool {
    forall|i: int|
        0 <= i < nodes.len() && is_listed(#[trigger] nodes[i]) ==> way_ends(
            info_of(nodes),
            root_of(nodes),
            nodes[i].handle,
        )
}

/// More steps than a way takes make no difference to it.
proof fn lemma_more_steps(
    info: Map<Seq<char>, (Seq<char>, Seq<char>)>,
    root: Seq<char>,
    h: Seq<char>,
    a: nat,
    b: nat,
)
    requires
        way_within(info, root, h, a) is Some,
        a <= b,
    ensures
        way_within(info, root, h, b) == way_within(info, root, h, a),
    decreases a,
{
    if info.contains_key(h) && !is_top(info, root, h) {
        lemma_more_steps(info, root, info[h].0, (a - 1) as nat, (b - 1) as nat);
    }
}

/// A way that ends within some number of steps is what it is within that number.
proof fn lemma_way_of(
    info: Map<Seq<char>, (Seq<char>, Seq<char>)>,
    root: Seq<char>,
    h: Seq<char>,
    steps: nat,
)
    requires
        way_within(info, root, h, steps) is Some,
    ensures
        way_of(info, root, h) == way_within(info, root, h, steps)->0,
{
    let chosen = choose|steps: nat| #[trigger] way_within(info, root, h, steps) is Some;
    if chosen <= steps {
        lemma_more_steps(info, root, h, chosen, steps);
    } else {
        lemma_more_steps(info, root, h, steps, chosen);
    }
}

/// What a map of nodes holds, as texts.
pub open spec fn info_view(m: Map<Seq<char>, (String, String)>) -> Map<
    Seq<char>,
    (Seq<char>, Seq<char>),
> {
    m.map_values(|v: (String, String)| (v.0@, v.1@))
}

/// The text in the member `name` of a node, empty where there is none.
fn str_or_empty<'a>(node: &'a Json, name: &str) -> (r: &'a str)
    ensures
        r@ == text_or_empty(*node, name@),
{
    match node.get_str(name) {
        Some(s) => s,
        None => {
            proof {
                reveal_strlit("");
                assert(""@ =~= seq![]);
            }
            ""
        },
    }
}

/// The key that a node's attributes are encrypted with.
pub fn attrs_key_of(node: &Json, folder_key: &[u8; 16]) -> (r: [u8; 16])
    ensures
        r@ == attrs_key(*node, folder_key@),
{
    let kind: u64 = match node.get_u64("t") {
        Some(t) => t,
        None => 0,
    };
    match crypto::extract_key_b64(str_or_empty(node, "k")) {
        None => *folder_key,
        Some(enc) => {
            if kind == 1 || kind == 2 {
                match base64url::decode(text::trimmed(enc)) {
                    Some(data) => {
                        if data.len() == 16 {
                            assert(data@.subrange(0, 16) =~= data@);
                            crypto::decrypted_block(data.as_slice(), 0, folder_key)
                        } else {
                            *folder_key
                        }
                    },
                    None => *folder_key,
                }
            } else {
                match crypto::decrypt_node_key(enc, folder_key) {
                    Ok(raw) => crypto::fold_key(&raw).0,
                    Err(_) => *folder_key,
                }
            }
        },
    }
}

/// The name of a node: from its attributes, or else its handle.
pub fn node_name_of(node: &Json, folder_key: &[u8; 16]) -> (r: String)
    ensures
        r@ == node_name(*node, folder_key@),
{
    match node.get_str("a") {
        None => str_or_empty(node, "h").to_owned(),
        Some(at) => {
            let key = attrs_key_of(node, folder_key);
            crypto::name_or(crypto::decrypt_name(at, &key), str_or_empty(node, "h"))
        },
    }
}

/// The nodes by handle, each with the handle of its parent and its name.
fn collect_info(nodes: &Vec<NodeInfo>) -> (r: StringHashMap<(String, String)>)
    ensures
        info_view(r@) == info_of(node_views(nodes@)),
{
    let ghost all = node_views(nodes@);
    let mut info: StringHashMap<(String, String)> = StringHashMap::new();
    let mut i: usize = 0;
    assert(all.take(0) =~= seq![]);
    assert(info_view(info@) =~= Map::empty());
    while i < nodes.len()
        invariant
            i <= nodes@.len(),
            all == node_views(nodes@),
            info_view(info@) == info_of(all.take(i as int)),
        decreases nodes@.len() - i,
    {
        let node = &nodes[i];
        let h = node.handle.clone();
        let ghost before = info_view(info@);
        info.insert(h, (node.parent.clone(), node.name.clone()));
        proof {
            let front = all.take(i + 1);
            assert(front.drop_last() =~= all.take(i as int));
            assert(front.last() == node@);
            assert(info_view(info@) =~= before.insert(h@, (node.parent@, node.name@)));
        }
        i = i + 1;
    }
    assert(all.take(all.len() as int) =~= all);
    info
}

/// The handle of the first node that is a root.
fn find_root<'a>(nodes: &'a Vec<NodeInfo>) -> (r: &'a str)
    ensures
        r@ == root_of(node_views(nodes@)),
{
    let ghost all = node_views(nodes@);
    let mut i: usize = 0;
    assert(all.skip(0) =~= all);
    while i < nodes.len()
        invariant
            i <= nodes@.len(),
            all == node_views(nodes@),
            root_of(all) == root_of(all.skip(i as int)),
        decreases nodes@.len() - i,
    {
        proof {
            assert(all.skip(i as int).skip(1) =~= all.skip(i + 1));
            assert(all.skip(i as int)[0] == nodes@[i as int]@);
        }
        if let Some(t) = nodes[i].kind {
            if t == 2 {
                return nodes[i].handle.as_str();
            }
        }
        i = i + 1;
    }
    proof {
        reveal_strlit("");
        assert(""@ =~= seq![]);
    }
    ""
}

/// The names on the way down to the node `h` from the top.
fn full_way(
    h: &str,
    info: &StringHashMap<(String, String)>,
    root: &str,
    Ghost(steps): Ghost<nat>,
) -> (r: Vec<String>)
    requires
        way_within(info_view(info@), root@, h@, steps) is Some,
    ensures
        text::text_views(r@) == way_within(info_view(info@), root@, h@, steps)->0,
    decreases steps,
{
    match info.get(h) {
        None => {
            let mut r: Vec<String> = Vec::new();
            r.push(h.to_owned());
            assert(text::text_views(r@) =~= seq![h@]);
            r
        },
        Some(node) => {
            assert(info_view(info@)[h@] == (node.0@, node.1@));
            if node.0.as_str().is_empty() || text::same_text(h, root) {
                let mut r: Vec<String> = Vec::new();
                r.push(node.1.clone());
                assert(text::text_views(r@) =~= seq![node.1@]);
                return r;
            }
            let mut r = full_way(node.0.as_str(), info, root, Ghost((steps - 1) as nat));
            let ghost above = text::text_views(r@);
            r.push(node.1.clone());
            assert(text::text_views(r@) =~= above.push(node.1@));
            r
        },
    }
}

/// The node key of a file, or why it has none.
fn file_key_of(node: &Json, folder_key: &[u8; 16]) -> (r: Result<[u8; 32], SkipReason>)
    ensures
        match r {
            Ok(raw) => file_key(*node, folder_key@) == Ok::<Seq<u8>, SkipReason>(raw@),
            Err(e) => file_key(*node, folder_key@) == Err::<Seq<u8>, SkipReason>(e),
        },
{
    match crypto::extract_key_b64(str_or_empty(node, "k")) {
        None => Err(SkipReason::NoKey),
        Some(enc) => match crypto::decrypt_node_key(enc, folder_key) {
            Ok(raw) => Ok(raw),
            Err(e) => Err(SkipReason::BadKey(e)),
        },
    }
}

/// Decrypts a node of a folder.
pub fn read_node(node: &Json, folder_key: &[u8; 16]) -> (r: NodeInfo)
    ensures
        r@ == node_of(*node, folder_key@),
{
    let size: u64 = match node.get_u64("s") {
        Some(s) => s,
        None => 0,
    };
    NodeInfo {
        handle: str_or_empty(node, "h").to_owned(),
        parent: str_or_empty(node, "p").to_owned(),
        name: node_name_of(node, folder_key),
        kind: node.get_u64("t"),
        size,
        key: file_key_of(node, folder_key),
    }
}

/// Decrypts the nodes of a folder.
pub fn read_nodes(nodes: &[Json], folder_key: &[u8; 16]) -> (r: Vec<NodeInfo>)
    ensures
        node_views(r@) == nodes_of(nodes@, folder_key@),
{
    let mut r: Vec<NodeInfo> = Vec::new();
    let ghost all = nodes_of(nodes@, folder_key@);
    let mut i: usize = 0;
    assert(node_views(r@) =~= all.take(0));
    while i < nodes.len()
        invariant
            i <= nodes@.len(),
            all == nodes_of(nodes@, folder_key@),
            node_views(r@) == all.take(i as int),
        decreases nodes@.len() - i,
    {
        let ghost before = node_views(r@);
        let node = read_node(&nodes[i], folder_key);
        r.push(node);
        proof {
            assert(node_views(r@) =~= before.push(node@));
            assert(all.take(i + 1) =~= all.take(i as int).push(all[i as int]));
        }
        i = i + 1;
    }
    assert(all.take(all.len() as int) =~= all);
    r
}

fn is_file_node(node: &NodeInfo) -> (r: bool)
    ensures
        r == is_file(node@),
{
    match node.kind {
        Some(t) => t == 0,
        None => false,
    }
}

/// Lists the files among decrypted nodes: where each goes, how large it is and how it is
/// decrypted.
pub fn list_files(nodes: &Vec<NodeInfo>) -> (r: FileList)
    requires
        ways_end(node_views(nodes@)),
    ensures
        entry_views(r.files@) == entries_of(
            node_views(nodes@),
            info_of(node_views(nodes@)),
            root_of(node_views(nodes@)),
        ),
        skipped_views(r.skipped@) == skipped_of(node_views(nodes@)),
        forall|e: int|
            0 <= e < r.files@.len() && (forall|k: int|
                0 <= k < (#[trigger] r.files@[e]).names@.len() ==> path::is_one_component(
                    #[trigger] r.files@[e].names@[k]@,
                )) ==> {
                let names = text::text_views(r.files@[e].names@);
                &&& names.len() > 1 ==> path::components(r.files@[e].path@) == names.skip(1)
                &&& names.len() == 1 ==> path::components(r.files@[e].path@) == names
            },
{
    let info = collect_info(nodes);
    let root = find_root(nodes);
    let ghost all = node_views(nodes@);
    let ghost map = info_of(all);
    let mut files: Vec<FileEntry> = Vec::new();
    let mut skipped: Vec<Skipped> = Vec::new();
    let mut i: usize = 0;
    assert(all.take(0) =~= seq![]);
    assert(entry_views(files@) =~= seq![]);
    assert(skipped_views(skipped@) =~= seq![]);
    while i < nodes.len()
        invariant
            i <= nodes@.len(),
            all == node_views(nodes@),
            map == info_of(all),
            info_view(info@) == map,
            root@ == root_of(all),
            ways_end(all),
            entry_views(files@) == entries_of(all.take(i as int), map, root@),
            skipped_views(skipped@) == skipped_of(all.take(i as int)),
        decreases nodes@.len() - i,
    {
        let node = &nodes[i];
        let ghost files_before = entry_views(files@);
        let ghost skipped_before = skipped_views(skipped@);
        proof {
            let front = all.take(i + 1);
            assert(front.drop_last() =~= all.take(i as int));
            assert(front.last() == node@);
            assert(all[i as int] == node@);
        }
        if is_file_node(node) {
            let h = node.handle.clone();
            match &node.key {
                Ok(raw) => {
                    let (aes_key, iv) = crypto::fold_key(raw);
                    let ghost steps = choose|steps: nat| #[trigger]
                        way_within(map, root@, h@, steps) is Some;
                    proof {
                        assert(is_listed(all[i as int]));
                        assert(way_ends(map, root@, h@));
                        lemma_way_of(map, root@, h@, steps);
                    }
                    let names = full_way(h.as_str(), &info, root, Ghost(steps));
                    let whole = path::collected(&names);
                    let entry = FileEntry {
                        handle: h,
                        names,
                        path: path::without_first(whole.as_str()),
                        size: node.size,
                        aes_key,
                        iv,
                    };
                    assert(entry@ == entry_of(node@, map, root@));
                    files.push(entry);
                    assert(entry_views(files@) =~= files_before.push(entry@));
                },
                Err(reason) => {
                    let one = Skipped { handle: h, reason: *reason };
                    skipped.push(one);
                    assert(skipped_views(skipped@) =~= skipped_before.push(one@));
                },
            }
        }
        i = i + 1;
    }
    assert(all.take(all.len() as int) =~= all);
    proof {
        assert forall|e: int|
            0 <= e < files@.len() && (forall|k: int|
                0 <= k < (#[trigger] files@[e]).names@.len() ==> path::is_one_component(
                    #[trigger] files@[e].names@[k]@,
                )) implies {
            let names = text::text_views(files@[e].names@);
            &&& names.len() > 1 ==> path::components(files@[e].path@) == names.skip(1)
            &&& names.len() == 1 ==> path::components(files@[e].path@) == names
        } by {
            assert(entry_views(files@)[e] == files@[e]@);
            let i = law_entries_come_from_nodes(all, map, root@, e);
            let names = text::text_views(files@[e].names@);
            assert forall|k: int| 0 <= k < names.len() implies path::is_one_component(
                #[trigger] names[k],
            ) by {
                assert(names[k] == files@[e].names@[k]@);
            }
            law_path_of_entry(all[i], map, root@);
        }
    }
    FileList { files, skipped }
}

/// The node that is `m` steps up from `h`.
pub open spec fn up(
    info: Map<Seq<char>, (Seq<char>, Seq<char>)>,
    h: Seq<char>,
    m: nat,
) -> Seq<char>
    decreases m,
{
    if m == 0 {
        h
    } else {
        info[up(info, h, (m - 1) as nat)].0
    }
}

/// To go up from the parent is to go up one step more.
proof fn lemma_up_from_parent(
    info: Map<Seq<char>, (Seq<char>, Seq<char>)>,
    h: Seq<char>,
    m: nat,
)
    ensures
        up(info, info[h].0, m) == up(info, h, m + 1),
    decreases m,
{
    if m > 0 {
        lemma_up_from_parent(info, h, (m - 1) as nat);
    } else {
        assert(up(info, h, 0) == h);
    }
}

/// A way that meets no top within some steps does not end within them.
proof fn lemma_no_top(
    info: Map<Seq<char>, (Seq<char>, Seq<char>)>,
    root: Seq<char>,
    h: Seq<char>,
    steps: nat,
)
    requires
        forall|m: nat| m < steps ==> !is_top(info, root, #[trigger] up(info, h, m)),
    ensures
        way_within(info, root, h, steps) is None,
    decreases steps,
{
    if steps > 0 {
        assert(up(info, h, 0) == h);
        assert forall|m: nat| m < steps - 1 implies !is_top(
            info,
            root,
            #[trigger] up(info, info[h].0, m),
        ) by {
            lemma_up_from_parent(info, h, m);
        }
        lemma_no_top(info, root, info[h].0, (steps - 1) as nat);
    }
}

/// A way that meets a top ends there.
proof fn lemma_top(
    info: Map<Seq<char>, (Seq<char>, Seq<char>)>,
    root: Seq<char>,
    h: Seq<char>,
    m: nat,
)
    requires
        is_top(info, root, up(info, h, m)),
    ensures
        way_within(info, root, h, m + 1) is Some,
    decreases m,
{
    if m > 0 && !is_top(info, root, h) {
        lemma_up_from_parent(info, h, (m - 1) as nat);
        lemma_top(info, root, info[h].0, (m - 1) as nat);
    }
}

/// Ways that have met go on together.
proof fn lemma_up_together(
    info: Map<Seq<char>, (Seq<char>, Seq<char>)>,
    h: Seq<char>,
    i: nat,
    j: nat,
    d: nat,
)
    requires
        up(info, h, i) == up(info, h, j),
    ensures
        up(info, h, i + d) == up(info, h, j + d),
    decreases d,
{
    if d > 0 {
        lemma_up_together(info, h, i, j, (d - 1) as nat);
    }
}

/// A way that has come back to where it was, without a top until then, meets none ever after.
proof fn lemma_circle_has_no_top(
    info: Map<Seq<char>, (Seq<char>, Seq<char>)>,
    root: Seq<char>,
    h: Seq<char>,
    i: nat,
    j: nat,
    m: nat,
)
    requires
        i < j,
        up(info, h, i) == up(info, h, j),
        forall|k: nat| k <= j ==> !is_top(info, root, #[trigger] up(info, h, k)),
    ensures
        !is_top(info, root, up(info, h, m)),
    decreases m,
{
    if m > j {
        lemma_up_together(info, h, i, j, (m - j) as nat);
        assert(up(info, h, m) == up(info, h, (i + (m - j)) as nat));
        lemma_circle_has_no_top(info, root, h, i, j, (i + (m - j)) as nat);
    }
}

/// A way of as many steps as there are nodes, without a top, never ends: it goes in a circle.
proof fn lemma_long_way(
    info: Map<Seq<char>, (Seq<char>, Seq<char>)>,
    root: Seq<char>,
    h: Seq<char>,
    n: nat,
)
    requires
        info.dom().finite(),
        info.dom().len() <= n,
        forall|m: nat| m <= n ==> !is_top(info, root, #[trigger] up(info, h, m)),
    ensures
        !way_ends(info, root, h),
{
    let s = Seq::new(n + 1, |m: int| up(info, h, m as nat));
    if s.no_duplicates() {
        s.unique_seq_to_set();
        assert(s.to_set().subset_of(info.dom())) by {
            assert forall|x: Seq<char>| s.to_set().contains(x) implies info.dom().contains(x) by {
                let m = choose|m: int| 0 <= m < s.len() && s[m] == x;
                assert(!is_top(info, root, up(info, h, m as nat)));
            }
        }
        vstd::set_lib::lemma_len_subset(s.to_set(), info.dom());
        assert(false);
    }
    let (i, j) = choose|i: int, j: int|
        0 <= i < s.len() && 0 <= j < s.len() && i != j && s[i] == s[j];
    let lo = if i < j { i as nat } else { j as nat };
    let hi = if i < j { j as nat } else { i as nat };
    assert(up(info, h, lo) == up(info, h, hi));
    assert forall|steps: nat| #[trigger] way_within(info, root, h, steps) is None by {
        assert forall|m: nat| m < steps implies !is_top(info, root, #[trigger] up(info, h, m)) by {
            lemma_circle_has_no_top(info, root, h, lo, hi, m);
        }
        lemma_no_top(info, root, h, steps);
    }
}

/// There are no more handles than nodes.
proof fn lemma_info_len(nodes: Seq<NodeView>)
    ensures
        info_of(nodes).dom().finite(),
        info_of(nodes).dom().len() <= nodes.len(),
    decreases nodes.len(),
{
    if nodes.len() > 0 {
        lemma_info_len(nodes.drop_last());
    }
}

/// Whether the way up from the node `h` comes to an end.
fn way_ends_from(
    h: &str,
    info: &StringHashMap<(String, String)>,
    root: &str,
    n: usize,
) -> (r: bool)
    requires
        info_view(info@).dom().finite(),
        info_view(info@).dom().len() <= n,
    ensures
        r == way_ends(info_view(info@), root@, h@),
{
    let ghost map = info_view(info@);
    let mut cur: &str = h;
    let mut m: usize = 0;
    loop
        invariant
            map == info_view(info@),
            map.dom().finite(),
            map.dom().len() <= n,
            m <= n,
            cur@ == up(map, h@, m as nat),
            forall|k: nat| k < m ==> !is_top(map, root@, #[trigger] up(map, h@, k)),
        decreases n - m,
    {
        match info.get(cur) {
            None => {
                proof {
                    lemma_top(map, root@, h@, m as nat);
                }
                return true;
            },
            Some(node) => {
                assert(map[cur@] == (node.0@, node.1@));
                if node.0.as_str().is_empty() || text::same_text(cur, root) {
                    proof {
                        lemma_top(map, root@, h@, m as nat);
                    }
                    return true;
                }
                if m == n {
                    proof {
                        lemma_long_way(map, root@, h@, n as nat);
                    }
                    return false;
                }
                assert(up(map, h@, (m + 1) as nat) == map[cur@].0);
                cur = node.0.as_str();
                m = m + 1;
            },
        }
    }
}

/// Whether the way up from each file that can be downloaded comes to an end, which `list_files`
/// asks for.
pub fn check_ways_end(nodes: &Vec<NodeInfo>) -> (r: bool)
    ensures
        r == ways_end(node_views(nodes@)),
{
    let info = collect_info(nodes);
    let root = find_root(nodes);
    let ghost all = node_views(nodes@);
    proof {
        lemma_info_len(all);
    }
    let mut i: usize = 0;
    while i < nodes.len()
        invariant
            i <= nodes@.len(),
            all == node_views(nodes@),
            info_view(info@) == info_of(all),
            info_view(info@).dom().finite(),
            info_view(info@).dom().len() <= nodes@.len(),
            root@ == root_of(all),
            forall|j: int|
                0 <= j < i && is_listed(#[trigger] all[j]) ==> way_ends(
                    info_of(all),
                    root_of(all),
                    all[j].handle,
                ),
        decreases nodes@.len() - i,
    {
        let node = &nodes[i];
        assert(all[i as int] == node@);
        if is_file_node(node) && node.key.is_ok() {
            if !way_ends_from(node.handle.as_str(), &info, root, nodes.len()) {
                assert(is_listed(all[i as int]));
                return false;
            }
        }
        i = i + 1;
    }
    true
}

/// The nodes of a folder run in a circle above one of its files.
#[derive(Clone, Copy, Debug, PartialEq, Eq, Structural)]
pub struct Circular;

/// Lists the files of a folder: where each goes, how large it is and how it is decrypted. That
/// fails exactly where a file that can be downloaded has no way up that ends.
pub fn build_file_list(nodes: &[Json], folder_key: &[u8; 16]) -> (r: Result<FileList, Circular>)
    ensures
        ({
            let all = nodes_of(nodes@, folder_key@);
            &&& r is Ok <==> ways_end(all)
            &&& r matches Ok(list) ==> {
                &&& entry_views(list.files@) == entries_of(all, info_of(all), root_of(all))
                &&& skipped_views(list.skipped@) == skipped_of(all)
            }
        }),
{
    let read = read_nodes(nodes, folder_key);
    if check_ways_end(&read) {
        Ok(list_files(&read))
    } else {
        Err(Circular)
    }
}

/// How many of `nodes` are files.
pub open spec fn file_count(nodes: Seq<NodeView>) -> nat
    decreases nodes.len(),
{
    if nodes.len() == 0 {
        0
    } else {
        file_count(nodes.drop_last()) + if is_file(nodes.last()) {
            1nat
        } else {
            0
        }
    }
}

/// Every file of a folder is either listed or left out with a reason, and nothing else is.
pub proof fn law_every_file_accounted_for(
    nodes: Seq<NodeView>,
    info: Map<Seq<char>, (Seq<char>, Seq<char>)>,
    root: Seq<char>,
)
    ensures
        entries_of(nodes, info, root).len() + skipped_of(nodes).len() == file_count(nodes),
    decreases nodes.len(),
{
    if nodes.len() > 0 {
        law_every_file_accounted_for(nodes.drop_last(), info, root);
    }
}

/// Each entry of the list belongs to a file among the nodes: its handle, and what its key gives.
pub proof fn law_entries_come_from_nodes(
    nodes: Seq<NodeView>,
    info: Map<Seq<char>, (Seq<char>, Seq<char>)>,
    root: Seq<char>,
    e: int,
) -> (i: int)
    requires
        0 <= e < entries_of(nodes, info, root).len(),
    ensures
        0 <= i < nodes.len(),
        is_listed(nodes[i]),
        entries_of(nodes, info, root)[e] == entry_of(nodes[i], info, root),
    decreases nodes.len(),
{
    let before = entries_of(nodes.drop_last(), info, root);
    if e < before.len() {
        law_entries_come_from_nodes(nodes.drop_last(), info, root, e)
    } else {
        nodes.len() - 1
    }
}

/// The path of a node that is below another is that one's path with its own name behind it.
pub proof fn law_path_below_parent(
    info: Map<Seq<char>, (Seq<char>, Seq<char>)>,
    root: Seq<char>,
    h: Seq<char>,
)
    requires
        way_ends(info, root, h),
        !is_top(info, root, h),
    ensures
        way_ends(info, root, info[h].0),
        path_of(info, root, h) == path::join(path_of(info, root, info[h].0), info[h].1),
{
    let steps = choose|steps: nat| #[trigger] way_within(info, root, h, steps) is Some;
    lemma_way_of(info, root, h, steps);
    lemma_way_of(info, root, info[h].0, (steps - 1) as nat);
    let above = way_of(info, root, info[h].0);
    assert(above.push(info[h].1).drop_last() =~= above);
}

/// No two nodes have the same handle, and no two are roots.
pub open spec fn are_distinct(nodes: Seq<NodeView>) -> bool {
    &&& forall|i: int, j: int|
        0 <= i < j < nodes.len() ==> (#[trigger] nodes[i]).handle != (#[trigger] nodes[j]).handle
    &&& forall|i: int, j: int|
        0 <= i < j < nodes.len() ==> (#[trigger] nodes[i]).kind != Some(2u64) || (
        #[trigger] nodes[j]).kind != Some(2u64)
}

/// What is known of distinct nodes by handle: what each of them says, and nothing else.
proof fn lemma_info_of_distinct(nodes: Seq<NodeView>)
    requires
        are_distinct(nodes),
    ensures
        forall|i: int|
            0 <= i < nodes.len() ==> {
                let node = #[trigger] nodes[i];
                &&& info_of(nodes).contains_key(node.handle)
                &&& info_of(nodes)[node.handle] == (node.parent, node.name)
            },
        forall|h: Seq<char>| #[trigger]
            info_of(nodes).contains_key(h) ==> exists|i: int|
                0 <= i < nodes.len() && (#[trigger] nodes[i]).handle == h,
    decreases nodes.len(),
{
    if nodes.len() > 0 {
        let front = nodes.drop_last();
        lemma_info_of_distinct(front);
        assert forall|i: int| 0 <= i < nodes.len() implies {
            let node = #[trigger] nodes[i];
            &&& info_of(nodes).contains_key(node.handle)
            &&& info_of(nodes)[node.handle] == (node.parent, node.name)
        } by {
            if i < front.len() {
                assert(front[i] == nodes[i]);
                assert(nodes[i].handle != nodes[nodes.len() - 1].handle);
            }
        }
        assert forall|h: Seq<char>| #[trigger]
            info_of(nodes).contains_key(h) implies exists|i: int|
            0 <= i < nodes.len() && (#[trigger] nodes[i]).handle == h by {
            if h == nodes.last().handle {
                assert(nodes[nodes.len() - 1].handle == h);
            } else {
                assert(info_of(front).contains_key(h));
                let i = choose|i: int| 0 <= i < front.len() && (#[trigger] front[i]).handle == h;
                assert(nodes[i].handle == h);
            }
        }
    }
}

/// The root of distinct nodes is the one that is a root, if there is one.
proof fn lemma_root_of_distinct(nodes: Seq<NodeView>)
    requires
        are_distinct(nodes),
    ensures
        forall|i: int|
            0 <= i < nodes.len() && (#[trigger] nodes[i]).kind == Some(2u64) ==> root_of(nodes)
                == nodes[i].handle,
        (forall|i: int| 0 <= i < nodes.len() ==> (#[trigger] nodes[i]).kind != Some(2u64))
            ==> root_of(nodes) == Seq::<char>::empty(),
    decreases nodes.len(),
{
    if nodes.len() > 0 {
        let rest = nodes.skip(1);
        assert forall|i: int, j: int| 0 <= i < j < rest.len() implies (#[trigger] rest[i]).handle
            != (#[trigger] rest[j]).handle && (rest[i].kind != Some(2u64) || rest[j].kind != Some(
            2u64,
        )) by {
            assert(rest[i] == nodes[i + 1] && rest[j] == nodes[j + 1]);
        }
        lemma_root_of_distinct(rest);
        assert(forall|i: int| 0 <= i < rest.len() ==> #[trigger] rest[i] == nodes[i + 1]);
        assert forall|i: int|
            0 <= i < nodes.len() && (#[trigger] nodes[i]).kind == Some(2u64) implies root_of(nodes)
            == nodes[i].handle by {
            if i > 0 {
                assert(rest[i - 1] == nodes[i]);
                assert(nodes[0].kind != Some(2u64));
            }
        }
    }
}

/// To take one node out takes out its entry, or its reason for being left out, and nothing else.
proof fn lemma_without_node(
    nodes: Seq<NodeView>,
    j: int,
    info: Map<Seq<char>, (Seq<char>, Seq<char>)>,
    root: Seq<char>,
)
    requires
        0 <= j < nodes.len(),
    ensures
        entries_of(nodes, info, root).to_multiset() == if is_listed(nodes[j]) {
            entries_of(nodes.remove(j), info, root).to_multiset().insert(
                entry_of(nodes[j], info, root),
            )
        } else {
            entries_of(nodes.remove(j), info, root).to_multiset()
        },
        skipped_of(nodes).to_multiset() == if is_file(nodes[j]) && nodes[j].key is Err {
            skipped_of(nodes.remove(j)).to_multiset().insert(
                (nodes[j].handle, nodes[j].key->Err_0),
            )
        } else {
            skipped_of(nodes.remove(j)).to_multiset()
        },
    decreases nodes.len(),
{
    broadcast use vstd::seq_lib::group_to_multiset_ensures;

    let front = nodes.drop_last();
    if j == nodes.len() - 1 {
        assert(nodes.remove(j) =~= front);
    } else {
        lemma_without_node(front, j, info, root);
        assert(nodes.remove(j).drop_last() =~= front.remove(j));
        assert(nodes.remove(j).last() == nodes.last());
        assert(front[j] == nodes[j]);
        let e = entry_of(nodes[j], info, root);
        let l = entry_of(nodes.last(), info, root);
        let rest = entries_of(front.remove(j), info, root).to_multiset();
        assert(rest.insert(e).insert(l) =~= rest.insert(l).insert(e));
        let x = (nodes[j].handle, nodes[j].key->Err_0);
        let y = (nodes.last().handle, nodes.last().key->Err_0);
        let left = skipped_of(front.remove(j)).to_multiset();
        assert(left.insert(x).insert(y) =~= left.insert(y).insert(x));
    }
}

/// Nodes in another order give the same entries, and leave out the same files.
proof fn lemma_entries_in_any_order(
    a: Seq<NodeView>,
    b: Seq<NodeView>,
    info: Map<Seq<char>, (Seq<char>, Seq<char>)>,
    root: Seq<char>,
)
    requires
        a.to_multiset() == b.to_multiset(),
    ensures
        entries_of(a, info, root).to_multiset() == entries_of(b, info, root).to_multiset(),
        skipped_of(a).to_multiset() == skipped_of(b).to_multiset(),
    decreases a.len(),
{
    broadcast use vstd::seq_lib::group_to_multiset_ensures;

    if a.len() == 0 {
        assert(b.to_multiset().len() == 0);
        assert(a =~= b);
    } else {
        let i = a.len() - 1;
        let x = a[i];
        assert(a.contains(x));
        assert(a.to_multiset().count(x) > 0);
        assert(b.contains(x));
        let j = choose|j: int| 0 <= j < b.len() && b[j] == x;
        assert(a.remove(i).to_multiset() =~= a.to_multiset().remove(x));
        assert(b.remove(j).to_multiset() =~= b.to_multiset().remove(x));
        lemma_entries_in_any_order(a.remove(i), b.remove(j), info, root);
        lemma_without_node(a, i, info, root);
        lemma_without_node(b, j, info, root);
    }
}

/// The order in which the server gives the nodes does not matter: the same files are listed, with
/// the same paths, and the same are left out.
pub proof fn law_any_order_of_nodes(a: Seq<NodeView>, b: Seq<NodeView>)
    requires
        are_distinct(a),
        a.to_multiset() == b.to_multiset(),
    ensures
        ways_end(a) <==> ways_end(b),
        entries_of(a, info_of(a), root_of(a)).to_multiset() == entries_of(
            b,
            info_of(b),
            root_of(b),
        ).to_multiset(),
        skipped_of(a).to_multiset() == skipped_of(b).to_multiset(),
{
    broadcast use vstd::seq_lib::group_to_multiset_ensures;

    assert forall|n: NodeView| #[trigger] a.contains(n) <==> b.contains(n) by {
        assert(a.contains(n) <==> a.to_multiset().count(n) > 0);
        assert(b.contains(n) <==> b.to_multiset().count(n) > 0);
    }
    lemma_distinct_in_any_order(a, b);
    lemma_info_of_distinct(a);
    lemma_info_of_distinct(b);
    lemma_root_of_distinct(a);
    lemma_root_of_distinct(b);
    assert(info_of(a) =~= info_of(b)) by {
        assert forall|h: Seq<char>| #[trigger]
            info_of(a).contains_key(h) <==> info_of(b).contains_key(h) by {
            if info_of(a).contains_key(h) {
                let i = choose|i: int| 0 <= i < a.len() && (#[trigger] a[i]).handle == h;
                assert(a.contains(a[i]));
                let j = choose|j: int| 0 <= j < b.len() && b[j] == a[i];
                assert(b[j].handle == h);
            }
            if info_of(b).contains_key(h) {
                let j = choose|j: int| 0 <= j < b.len() && (#[trigger] b[j]).handle == h;
                assert(a.contains(b[j]));
                let i = choose|i: int| 0 <= i < a.len() && a[i] == b[j];
                assert(a[i].handle == h);
            }
        }
        assert forall|h: Seq<char>| #[trigger] info_of(a).contains_key(h) implies info_of(a)[h]
            == info_of(b)[h] by {
            let i = choose|i: int| 0 <= i < a.len() && (#[trigger] a[i]).handle == h;
            assert(a.contains(a[i]));
            let j = choose|j: int| 0 <= j < b.len() && b[j] == a[i];
            assert(b[j].handle == h);
        }
    }
    assert(root_of(a) == root_of(b)) by {
        if exists|i: int| 0 <= i < a.len() && (#[trigger] a[i]).kind == Some(2u64) {
            let i = choose|i: int| 0 <= i < a.len() && (#[trigger] a[i]).kind == Some(2u64);
            assert(a.contains(a[i]));
            let j = choose|j: int| 0 <= j < b.len() && b[j] == a[i];
            assert(b[j].kind == Some(2u64));
        } else {
            assert forall|j: int| 0 <= j < b.len() implies (#[trigger] b[j]).kind != Some(
                2u64,
            ) by {
                assert(a.contains(b[j]));
                let i = choose|i: int| 0 <= i < a.len() && a[i] == b[j];
                assert(a[i].kind != Some(2u64));
            }
        }
    }
    assert(ways_end(a) <==> ways_end(b)) by {
        if ways_end(a) {
            assert forall|j: int| 0 <= j < b.len() && is_listed(#[trigger] b[j]) implies way_ends(
                info_of(b),
                root_of(b),
                b[j].handle,
            ) by {
                assert(a.contains(b[j]));
                let i = choose|i: int| 0 <= i < a.len() && a[i] == b[j];
                assert(is_listed(a[i]));
            }
        }
        if ways_end(b) {
            assert forall|i: int| 0 <= i < a.len() && is_listed(#[trigger] a[i]) implies way_ends(
                info_of(a),
                root_of(a),
                a[i].handle,
            ) by {
                assert(a.contains(a[i]));
                let j = choose|j: int| 0 <= j < b.len() && b[j] == a[i];
                assert(is_listed(b[j]));
            }
        }
    }
    lemma_entries_in_any_order(a, b, info_of(a), root_of(a));
}

/// Distinct nodes are distinct in any order.
proof fn lemma_distinct_in_any_order(a: Seq<NodeView>, b: Seq<NodeView>)
    requires
        are_distinct(a),
        a.to_multiset() == b.to_multiset(),
    ensures
        are_distinct(b),
{
    broadcast use vstd::seq_lib::group_to_multiset_ensures;

    assert(a.no_duplicates());
    a.lemma_multiset_has_no_duplicates();
    b.lemma_multiset_has_no_duplicates_conv();
    assert forall|k: int, l: int| 0 <= k < l < b.len() implies (#[trigger] b[k]).handle != (
    #[trigger] b[l]).handle && (b[k].kind != Some(2u64) || b[l].kind != Some(2u64)) by {
        assert(b.to_multiset().count(b[k]) > 0 && b.to_multiset().count(b[l]) > 0);
        assert(a.contains(b[k]) && a.contains(b[l]));
        let i = choose|i: int| 0 <= i < a.len() && a[i] == b[k];
        let j = choose|j: int| 0 <= j < a.len() && a[j] == b[l];
        assert(b[k] != b[l]);
        assert(i < j || j < i);
    }
}

/// Where a file goes: where the names on the way down to it are plain, the components of its path
/// are all of them but the first, that of the shared folder, however deep it lies.
pub proof fn law_path_of_entry(
    node: NodeView,
    info: Map<Seq<char>, (Seq<char>, Seq<char>)>,
    root: Seq<char>,
)
    requires
        forall|k: int|
            0 <= k < way_of(info, root, node.handle).len() ==> path::is_one_component(
                #[trigger] way_of(info, root, node.handle)[k],
            ),
    ensures
        ({
            let entry = entry_of(node, info, root);
            &&& entry.names == way_of(info, root, node.handle)
            &&& entry.names.len() > 1 ==> path::components(entry.path) == entry.names.skip(1)
            &&& entry.names.len() == 1 ==> path::components(entry.path) == entry.names
        }),
{
    let names = way_of(info, root, node.handle);
    path::law_collect(names);
    path::law_below_first(path::collect(names));
}

/// Where a file goes, whatever the names: the components of the path that they make, but the first,
/// unless there is only one.
pub proof fn law_path_of_any_entry(
    node: NodeView,
    info: Map<Seq<char>, (Seq<char>, Seq<char>)>,
    root: Seq<char>,
)
    ensures
        ({
            let entry = entry_of(node, info, root);
            let whole = path::collect(entry.names);
            &&& path::components(whole).len() > 1 ==> path::components(entry.path)
                == path::components(whole).skip(1)
            &&& path::components(whole).len() <= 1 ==> entry.path == whole
        }),
{
    path::law_below_first(path::collect(way_of(info, root, node.handle)));
}

/// What else an entry says: the handle and the size of its node, and the key and the counter start
/// that its node key folds to.
pub proof fn law_entry(
    node: NodeView,
    info: Map<Seq<char>, (Seq<char>, Seq<char>)>,
    root: Seq<char>,
    raw: Seq<u8>,
    i: int,
)
    requires
        node.key == Ok::<Seq<u8>, SkipReason>(raw),
        raw.len() == 32,
        0 <= i < 16,
    ensures
        ({
            let entry = entry_of(node, info, root);
            &&& entry.handle == node.handle
            &&& entry.size == node.size
            &&& entry.aes_key.len() == 16
            &&& entry.aes_key[i] ^ raw[i + 16] == raw[i]
            &&& entry.iv.len() == 16
            &&& entry.iv[i] == if i < 8 {
                raw[i + 16]
            } else {
                0
            }
        }),
{
    crypto::law_folding_is_undone(raw, i);
}

/// The names on the way down to a node: its handle where it is unknown; its own name where it has no
/// parent or is the root; else the names on the way to its parent, and its own.
pub proof fn law_way(
    info: Map<Seq<char>, (Seq<char>, Seq<char>)>,
    root: Seq<char>,
    h: Seq<char>,
)
    ensures
        !info.contains_key(h) ==> way_ends(info, root, h) && way_of(info, root, h) == seq![h],
        info.contains_key(h) && (info[h].0.len() == 0 || h == root) ==> way_ends(info, root, h)
            && way_of(info, root, h) == seq![info[h].1],
        info.contains_key(h) && info[h].0.len() > 0 && h != root ==> {
            &&& way_ends(info, root, h) <==> way_ends(info, root, info[h].0)
            &&& way_ends(info, root, h) ==> way_of(info, root, h) == way_of(
                info,
                root,
                info[h].0,
            ).push(info[h].1)
        },
{
    if !info.contains_key(h) || info[h].0.len() == 0 || h == root {
        assert(way_within(info, root, h, 1) is Some);
        lemma_way_of(info, root, h, 1);
    } else {
        if way_ends(info, root, h) {
            let steps = choose|steps: nat| #[trigger] way_within(info, root, h, steps) is Some;
            assert(way_within(info, root, info[h].0, (steps - 1) as nat) is Some);
            lemma_way_of(info, root, h, steps);
            lemma_way_of(info, root, info[h].0, (steps - 1) as nat);
        }
        if way_ends(info, root, info[h].0) {
            let steps = choose|steps: nat| #[trigger]
                way_within(info, root, info[h].0, steps) is Some;
            assert(way_within(info, root, h, steps + 1) is Some);
        }
    }
}

/// Of the nodes with one handle the last counts, with its parent and its name; and nothing is known
/// of a handle that no node has.
pub proof fn law_last_node_counts(nodes: Seq<NodeView>, i: int, h: Seq<char>)
    requires
        0 <= i < nodes.len(),
        forall|j: int| i < j < nodes.len() ==> (#[trigger] nodes[j]).handle != nodes[i].handle,
    ensures
        info_of(nodes).contains_key(nodes[i].handle),
        info_of(nodes)[nodes[i].handle] == (nodes[i].parent, nodes[i].name),
        info_of(nodes).contains_key(h) ==> exists|j: int|
            0 <= j < nodes.len() && (#[trigger] nodes[j]).handle == h,
    decreases nodes.len(),
{
    lemma_known_handles(nodes, h);
    let front = nodes.drop_last();
    if i < front.len() {
        assert(nodes[nodes.len() - 1].handle != nodes[i].handle);
        assert forall|j: int| i < j < front.len() implies (#[trigger] front[j]).handle
            != front[i].handle by {
            assert(front[j] == nodes[j]);
        }
        law_last_node_counts(front, i, h);
    }
}

proof fn lemma_known_handles(nodes: Seq<NodeView>, h: Seq<char>)
    ensures
        info_of(nodes).contains_key(h) ==> exists|j: int|
            0 <= j < nodes.len() && (#[trigger] nodes[j]).handle == h,
    decreases nodes.len(),
{
    if nodes.len() > 0 && info_of(nodes).contains_key(h) {
        let front = nodes.drop_last();
        lemma_known_handles(front, h);
        if h == nodes.last().handle {
            assert(nodes[nodes.len() - 1].handle == h);
        } else {
            let j = choose|j: int| 0 <= j < front.len() && (#[trigger] front[j]).handle == h;
            assert(nodes[j].handle == h);
        }
    }
}

/// The first root among the nodes is the root; where there is none, no handle is.
pub proof fn law_first_root(nodes: Seq<NodeView>, i: int)
    ensures
        0 <= i < nodes.len() && nodes[i].kind == Some(2u64) && (forall|j: int|
            0 <= j < i ==> (#[trigger] nodes[j]).kind != Some(2u64)) ==> root_of(nodes)
            == nodes[i].handle,
        (forall|j: int| 0 <= j < nodes.len() ==> (#[trigger] nodes[j]).kind != Some(2u64))
            ==> root_of(nodes) == Seq::<char>::empty(),
    decreases nodes.len(),
{
    if nodes.len() > 0 {
        let rest = nodes.skip(1);
        law_first_root(rest, i - 1);
        assert(forall|j: int| 0 <= j < rest.len() ==> #[trigger] rest[j] == nodes[j + 1]);
        if 0 < i < nodes.len() && nodes[i].kind == Some(2u64) && (forall|j: int|
            0 <= j < i ==> (#[trigger] nodes[j]).kind != Some(2u64)) {
            assert(nodes[0].kind != Some(2u64));
            assert(rest[i - 1] == nodes[i]);
            assert forall|j: int| 0 <= j < i - 1 implies (#[trigger] rest[j]).kind != Some(
                2u64,
            ) by {
                assert(nodes[j + 1].kind != Some(2u64));
            }
        }
        if forall|j: int| 0 <= j < nodes.len() ==> (#[trigger] nodes[j]).kind != Some(2u64) {
            assert(nodes[0].kind != Some(2u64));
            assert forall|j: int| 0 <= j < rest.len() implies (#[trigger] rest[j]).kind != Some(
                2u64,
            ) by {
                assert(nodes[j + 1].kind != Some(2u64));
            }
        }
    }
}

/// The files are listed node by node: those of two lists of nodes, one behind the other, are those
/// of the first and then those of the second; a single node is listed where it is a file with a key,
/// left out where it is a file without, and nothing else.
pub proof fn law_files_node_by_node(
    a: Seq<NodeView>,
    b: Seq<NodeView>,
    node: NodeView,
    info: Map<Seq<char>, (Seq<char>, Seq<char>)>,
    root: Seq<char>,
)
    ensures
        entries_of(a + b, info, root) == entries_of(a, info, root) + entries_of(b, info, root),
        skipped_of(a + b) == skipped_of(a) + skipped_of(b),
        entries_of(seq![node], info, root) == if node.kind == Some(0u64) && node.key is Ok {
            seq![entry_of(node, info, root)]
        } else {
            seq![]
        },
        skipped_of(seq![node]) == if node.kind == Some(0u64) && node.key is Err {
            seq![(node.handle, node.key->Err_0)]
        } else {
            seq![]
        },
    decreases b.len(),
{
    let one = seq![node];
    let none = Seq::<NodeView>::empty();
    assert(one.drop_last() =~= none);
    assert(one.last() == node);
    assert(entries_of(none, info, root) =~= seq![]);
    assert(skipped_of(none) =~= seq![]);
    assert(entries_of(one, info, root) =~= if node.kind == Some(0u64) && node.key is Ok {
        seq![entry_of(node, info, root)]
    } else {
        seq![]
    });
    assert(skipped_of(one) =~= if node.kind == Some(0u64) && node.key is Err {
        seq![(node.handle, node.key->Err_0)]
    } else {
        seq![]
    });
    if b.len() == 0 {
        assert(a + b =~= a);
        assert(entries_of(a, info, root) + entries_of(b, info, root) =~= entries_of(a, info, root));
        assert(skipped_of(a) + skipped_of(b) =~= skipped_of(a));
    } else {
        let front = b.drop_last();
        law_files_node_by_node(a, front, node, info, root);
        assert((a + b).drop_last() =~= a + front);
        assert((a + b).last() == b.last());
        assert(entries_of(a + b, info, root) =~= entries_of(a, info, root) + entries_of(
            b,
            info,
            root,
        ));
        assert(skipped_of(a + b) =~= skipped_of(a) + skipped_of(b));
    }
}

/// The list can be made exactly where the way up from every file with a key comes to an end.
pub proof fn law_ways_end(nodes: Seq<NodeView>)
    ensures
        ways_end(nodes) ==> forall|i: int|
            0 <= i < nodes.len() && (#[trigger] nodes[i]).kind == Some(0u64) && nodes[i].key is Ok
                ==> way_ends(info_of(nodes), root_of(nodes), nodes[i].handle),
        !ways_end(nodes) ==> exists|i: int|
            0 <= i < nodes.len() && (#[trigger] nodes[i]).kind == Some(0u64) && nodes[i].key is Ok
                && !way_ends(info_of(nodes), root_of(nodes), nodes[i].handle),
{
}

/// A way that comes back to a node that is neither the root nor without a parent never ends.
pub proof fn law_circle_never_ends(
    info: Map<Seq<char>, (Seq<char>, Seq<char>)>,
    root: Seq<char>,
    h: Seq<char>,
    n: nat,
)
    requires
        n > 0,
        up(info, h, n) == h,
        forall|m: nat|
            m <= n ==> {
                let x = #[trigger] up(info, h, m);
                info.contains_key(x) && info[x].0.len() > 0 && x != root
            },
    ensures
        !way_ends(info, root, h),
{
    assert(up(info, h, 0) == h);
    assert forall|steps: nat| #[trigger] way_within(info, root, h, steps) is None by {
        assert forall|k: nat| k <= n implies !is_top(info, root, #[trigger] up(info, h, k)) by {}
        assert forall|m: nat| m < steps implies !is_top(info, root, #[trigger] up(info, h, m)) by {
            lemma_circle_has_no_top(info, root, h, 0, n, m);
        }
        lemma_no_top(info, root, h, steps);
    }
}

/// What a node of the server says, member by member; what is missing is empty or zero.
pub proof fn law_node_members(node: Json, folder_key: Seq<u8>)
    ensures
        ({
            let n = node_of(node, folder_key);
            &&& node.text_field("h"@) matches Some(h) ==> n.handle == h
            &&& node.text_field("h"@) is None ==> n.handle.len() == 0
            &&& node.text_field("p"@) matches Some(p) ==> n.parent == p
            &&& node.text_field("p"@) is None ==> n.parent.len() == 0
            &&& n.kind == node.unsigned_field("t"@)
            &&& node.unsigned_field("s"@) matches Some(s) ==> n.size == s
            &&& node.unsigned_field("s"@) is None ==> n.size == 0
            &&& node.text_field("a"@) is None ==> n.name == n.handle
        }),
{
}

/// The key of a file is the first that its key field offers, decrypted; there is none where the
/// field offers none or where that one cannot be decrypted.
pub proof fn law_key_of_file(node: Json, folder_key: Seq<u8>, field: Seq<char>, enc: Seq<char>)
    requires
        node.text_field("k"@) == Some(field) || node.text_field("k"@) is None && field.len() == 0,
    ensures
        crypto::field_key(field) is None ==> node_of(node, folder_key).key == Err::<
            Seq<u8>,
            SkipReason,
        >(SkipReason::NoKey),
        crypto::field_key(field) == Some(enc) ==> match crypto::node_key(enc, folder_key) {
            Ok(raw) => node_of(node, folder_key).key == Ok::<Seq<u8>, SkipReason>(raw),
            Err(e) => node_of(node, folder_key).key == Err::<Seq<u8>, SkipReason>(
                SkipReason::BadKey(e),
            ),
        },
{
    assert(field.len() == 0 ==> field =~= seq![]);
}

/// Which key a node's attributes are encrypted with. A folder or a root, of kind 1 or 2, has one
/// block that the folder's key decrypts; any other node has a node key, of which the folded key
/// counts. Without a key, or with one of another length, it is the folder's key.
pub proof fn law_key_of_attrs(
    node: Json,
    folder_key: Seq<u8>,
    field: Seq<char>,
    enc: Seq<char>,
    kind: Option<u64>,
)
    requires
        node.text_field("k"@) == Some(field) || node.text_field("k"@) is None && field.len() == 0,
        node.unsigned_field("t"@) == kind,
    ensures
        crypto::field_key(field) is None ==> attrs_key(node, folder_key) == folder_key,
        crypto::field_key(field) == Some(enc) && (kind == Some(1u64) || kind == Some(2u64)) ==> {
            let data = base64url::base64url_decoded(text::trim(enc));
            &&& data is Some && data->0.len() == 16 ==> attrs_key(node, folder_key)
                == crypto::aes128_decrypt_block(folder_key, data->0)
            &&& data is None || data->0.len() != 16 ==> attrs_key(node, folder_key) == folder_key
        },
        crypto::field_key(field) == Some(enc) && kind != Some(1u64) && kind != Some(2u64)
            ==> match crypto::node_key(enc, folder_key) {
            Ok(raw) => attrs_key(node, folder_key).len() == 16 && forall|i: int|
                0 <= i < 16 ==> (#[trigger] attrs_key(node, folder_key)[i]) == raw[i] ^ raw[i + 16],
            Err(_) => attrs_key(node, folder_key) == folder_key,
        },
{
    assert(field.len() == 0 ==> field =~= seq![]);
}

/// A node is named by its attributes under that key, and by its handle where they give no name.
pub proof fn law_name_of_node(node: Json, folder_key: Seq<u8>, at: Seq<char>)
    requires
        node.text_field("a"@) == Some(at),
    ensures
        match crypto::attrs_name(at, attrs_key(node, folder_key)) {
            Some(name) => node_of(node, folder_key).name == name,
            None => node_of(node, folder_key).name == node_of(node, folder_key).handle,
        },
{
}

} // verus!
