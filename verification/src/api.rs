//! The requests that go to the server, and what its replies say.

use vstd::prelude::*;
use vstd::string::StringExecFns;

use crate::json;
use crate::json::Json;
use crate::text;

verus! {

/// How many files one request asks the addresses of.
pub const BATCH_SIZE: usize = 50;

/// What a reply says is wrong, or what is wrong with it.
#[derive(Clone, Copy, Debug, PartialEq, Eq, Structural)]
pub enum ApiError {
    /// It is no array with something in it.
    BadShape,
    /// The server gives this error.
    Code(i64),
    /// Something that it should say is missing.
    Incomplete,
}

/// Where a file is downloaded from, its size and its attributes.
#[derive(Debug)]
pub struct DlInfo {
    pub url: String,
    pub size: u64,
    pub at: String,
}

/// The body of the request for the file `id`.
pub open spec fn file_body(id: Seq<char>) -> Seq<char> {
    "[{\"a\":\"g\",\"g\":1,\"p\":"@ + json::json_string(id) + "}]"@
}

/// The part of a request's body that asks for the address of the node `handle`.
pub open spec fn node_item(handle: Seq<char>) -> Seq<char> {
    "{\"a\":\"g\",\"g\":1,\"n\":"@ + json::json_string(handle) + "}"@
}

/// The parts for `handles`, with commas between them.
pub open spec fn node_items(handles: Seq<Seq<char>>) -> Seq<char>
    decreases handles.len(),
{
    if handles.len() == 0 {
        seq![]
    } else if handles.len() == 1 {
        node_item(handles[0])
    } else {
        node_items(handles.drop_last()) + ","@ + node_item(handles.last())
    }
}

/// The body of the request for the addresses of the nodes `handles`.
pub open spec fn nodes_body(handles: Seq<Seq<char>>) -> Seq<char> {
    "["@ + node_items(handles) + "]"@
}

/// The body of the request for a file's address, size and attributes.
pub fn file_request(id: &str) -> (r: String)
    ensures
        r@ == file_body(id@),
        r@ == "[{\"a\":\"g\",\"g\":1,\"p\":"@ + json::json_string(id@) + "}]"@,
{
    let quoted = json::string_literal(id).unwrap();
    text::joined3("[{\"a\":\"g\",\"g\":1,\"p\":", quoted.as_str(), "}]")
}

/// The body of the request for the nodes of a folder.
pub fn folder_request() -> (r: String)
    ensures
        r@ == "[{\"a\":\"f\",\"c\":1,\"ca\":1,\"r\":1}]"@,
{
    "[{\"a\":\"f\",\"c\":1,\"ca\":1,\"r\":1}]".to_owned()
}

fn node_item_of(handle: &str) -> (r: String)
    ensures
        r@ == node_item(handle@),
{
    let quoted = json::string_literal(handle).unwrap();
    text::joined3("{\"a\":\"g\",\"g\":1,\"n\":", quoted.as_str(), "}")
}

/// The body of the request for the addresses of the nodes `handles[from..to]`.
fn nodes_request(handles: &Vec<String>, from: usize, to: usize) -> (r: String)
    requires
        from <= to <= handles@.len(),
    ensures
        r@ == nodes_body(text::text_views(handles@).subrange(from as int, to as int)),
{
    let ghost all = text::text_views(handles@).subrange(from as int, to as int);
    let mut items: String = String::new();
    let mut i: usize = from;
    assert(all.take(0) =~= seq![]);
    while i < to
        invariant
            from <= i <= to <= handles@.len(),
            all == text::text_views(handles@).subrange(from as int, to as int),
            items@ == node_items(all.take(i - from)),
        decreases to - i,
    {
        let item = node_item_of(handles[i].as_str());
        proof {
            let front = all.take(i + 1 - from);
            assert(front.drop_last() =~= all.take(i - from));
            assert(front.last() == handles@[i as int]@);
        }
        if i > from {
            items.append(",");
        }
        items.append(item.as_str());
        assert(i == from ==> items@ =~= item@);
        i = i + 1;
    }
    assert(all.take(to - from) =~= all);
    text::joined3("[", items.as_str(), "]")
}

/// The body of the request for the address of the node `handle` of a folder.
pub fn node_request(handle: &str) -> (r: String)
    ensures
        r@ == nodes_body(seq![handle@]),
        r@ == "["@ + ("{\"a\":\"g\",\"g\":1,\"n\":"@ + json::json_string(handle@) + "}"@) + "]"@,
{
    let item = node_item_of(handle);
    text::joined3("[", item.as_str(), "]")
}

/// How many requests it takes to ask for `n` addresses.
pub open spec fn batch_count(n: nat) -> nat {
    (n + BATCH_SIZE - 1) as nat / BATCH_SIZE as nat
}

/// The handles that the request number `b` asks for.
pub open spec fn batch(handles: Seq<Seq<char>>, b: int) -> Seq<Seq<char>> {
    let end = (b + 1) * BATCH_SIZE;
    handles.subrange(
        b * BATCH_SIZE,
        if end <= handles.len() {
            end
        } else {
            handles.len() as int
        },
    )
}

/// Each handle is asked for in one batch, at one place; no batch is empty or holds more than fifty
/// handles, and only the last holds fewer.
pub proof fn law_batches(handles: Seq<Seq<char>>, k: int, b: int)
    requires
        0 <= k < handles.len(),
        0 <= b < batch_count(handles.len()),
    ensures
        k / BATCH_SIZE as int <= batch_count(handles.len()) - 1,
        k % BATCH_SIZE as int <= batch(handles, k / BATCH_SIZE as int).len() - 1,
        batch(handles, k / BATCH_SIZE as int)[k % BATCH_SIZE as int] == handles[k],
        1 <= batch(handles, b).len() <= 50,
        b + 1 < batch_count(handles.len()) ==> batch(handles, b).len() == 50,
        forall|j: int|
            0 <= j < batch(handles, b).len() ==> #[trigger] batch(handles, b)[j]
                == handles[b * BATCH_SIZE + j],
{
}

/// The bodies of the requests for the addresses of the nodes `handles`, a batch at a time.
pub fn batch_requests(handles: &Vec<String>) -> (r: Vec<String>)
    ensures
        r@.len() == batch_count(handles@.len()),
        forall|b: int|
            0 <= b < r@.len() ==> (#[trigger] r@[b])@ == nodes_body(
                batch(text::text_views(handles@), b),
            ),
{
    let n: usize = handles.len();
    let mut r: Vec<String> = Vec::new();
    let mut from: usize = 0;
    while from < n
        invariant
            n == handles@.len(),
            from <= n,
            from < n ==> from == r@.len() * BATCH_SIZE,
            from == n ==> r@.len() == batch_count(n as nat),
            forall|b: int|
                0 <= b < r@.len() ==> (#[trigger] r@[b])@ == nodes_body(
                    batch(text::text_views(handles@), b),
                ),
        decreases n - from,
    {
        let to: usize = if n - from > BATCH_SIZE {
            from + BATCH_SIZE
        } else {
            n
        };
        r.push(nodes_request(handles, from, to));
        from = to;
    }
    r
}

/// The first item of a reply.
fn first_item<'a>(reply: &'a Json) -> (r: Option<&'a Json>)
    ensures
        r is Some <==> reply.items() is Some && reply.items()->0.len() > 0,
        r is Some ==> *r->0 == reply.items()->0[0],
{
    match reply.as_array() {
        Some(items) => if items.len() > 0 {
            Some(&items[0])
        } else {
            None
        },
        None => None,
    }
}

/// The item that a reply to one question gives, where it is not an error number.
pub open spec fn answer(reply: Json) -> Result<Json, ApiError> {
    match reply.items() {
        None => Err(ApiError::BadShape),
        Some(items) => if items.len() == 0 {
            Err(ApiError::BadShape)
        } else {
            match items[0].signed() {
                Some(code) => Err(ApiError::Code(code)),
                None => Ok(items[0]),
            }
        },
    }
}

fn answer_of<'a>(reply: &'a Json) -> (r: Result<&'a Json, ApiError>)
    ensures
        match r {
            Ok(item) => answer(*reply) == Ok::<Json, ApiError>(*item),
            Err(e) => answer(*reply) == Err::<Json, ApiError>(e),
        },
{
    match first_item(reply) {
        None => Err(ApiError::BadShape),
        Some(item) => match item.as_i64() {
            Some(code) => Err(ApiError::Code(code)),
            None => Ok(item),
        },
    }
}

/// The address, the size and the attributes of a file in `item`: its members `g`, `s` and `at`,
/// or, of an array of three, its items in that order.
pub open spec fn dl_info_in(item: Json) -> Option<(Seq<char>, u64, Seq<char>)> {
    let (g, s, at) = match item {
        Json::List(v) => if v@.len() == 3 {
            (v@[0].text(), v@[1].unsigned(), v@[2].text())
        } else {
            (None, None, None)
        },
        _ => (item.text_field("g"@), item.unsigned_field("s"@), item.text_field("at"@)),
    };
    match (g, s, at) {
        (Some(g), Some(s), Some(at)) => Some((g, s, at)),
        _ => None,
    }
}

/// What the reply to `file_request` says.
pub open spec fn dl_info(reply: Json) -> Result<(Seq<char>, u64, Seq<char>), ApiError> {
    match answer(reply) {
        Err(e) => Err(e),
        Ok(item) => match dl_info_in(item) {
            Some(info) => Ok(info),
            None => Err(ApiError::Incomplete),
        },
    }
}

/// Reads the reply to `file_request`.
pub fn file_dl_info(reply: &Json) -> (r: Result<DlInfo, ApiError>)
    ensures
        match r {
            Ok(info) => dl_info(*reply) == Ok::<(Seq<char>, u64, Seq<char>), ApiError>(
                (info.url@, info.size, info.at@),
            ),
            Err(e) => dl_info(*reply) == Err::<(Seq<char>, u64, Seq<char>), ApiError>(e),
        },
{
    let item = match answer_of(reply) {
        Ok(item) => item,
        Err(e) => {
            return Err(e);
        },
    };
    let (g, s, at) = match item {
        Json::List(v) => if v.len() == 3 {
            (v[0].as_str(), v[1].as_u64(), v[2].as_str())
        } else {
            (None, None, None)
        },
        _ => (item.get_str("g"), item.get_u64("s"), item.get_str("at")),
    };
    match (g, s, at) {
        (Some(g), Some(s), Some(at)) => Ok(
            DlInfo { url: g.to_owned(), size: s, at: at.to_owned() },
        ),
        _ => Err(ApiError::Incomplete),
    }
}

/// The nodes that the reply to `folder_request` gives.
pub open spec fn nodes_in(reply: Json) -> Result<Seq<Json>, ApiError> {
    match answer(reply) {
        Err(e) => Err(e),
        Ok(item) => match item.field("f"@) {
            Some(nodes) => match nodes.items() {
                Some(items) => Ok(items),
                None => Err(ApiError::Incomplete),
            },
            None => Err(ApiError::Incomplete),
        },
    }
}

/// Reads the reply to `folder_request`.
pub fn folder_nodes<'a>(reply: &'a Json) -> (r: Result<&'a Vec<Json>, ApiError>)
    ensures
        match r {
            Ok(nodes) => nodes_in(*reply) == Ok::<Seq<Json>, ApiError>(nodes@),
            Err(e) => nodes_in(*reply) == Err::<Seq<Json>, ApiError>(e),
        },
{
    let item = match answer_of(reply) {
        Ok(item) => item,
        Err(e) => {
            return Err(e);
        },
    };
    match item.get("f") {
        Some(nodes) => match nodes.as_array() {
            Some(items) => Ok(items),
            None => Err(ApiError::Incomplete),
        },
        None => Err(ApiError::Incomplete),
    }
}

/// The address that the reply to `node_request` gives.
pub open spec fn url_in(reply: Json) -> Result<Seq<char>, ApiError> {
    match answer(reply) {
        Err(e) => Err(e),
        Ok(item) => match item.text_field("g"@) {
            Some(url) => Ok(url),
            None => Err(ApiError::Incomplete),
        },
    }
}

/// Reads the reply to `node_request`.
pub fn folder_file_url(reply: &Json) -> (r: Result<String, ApiError>)
    ensures
        match r {
            Ok(url) => url_in(*reply) == Ok::<Seq<char>, ApiError>(url@),
            Err(e) => url_in(*reply) == Err::<Seq<char>, ApiError>(e),
        },
{
    let item = match answer_of(reply) {
        Ok(item) => item,
        Err(e) => {
            return Err(e);
        },
    };
    match item.get_str("g") {
        Some(url) => Ok(url.to_owned()),
        None => Err(ApiError::Incomplete),
    }
}

/// The views of a list of texts that may be missing.
pub open spec fn opt_views(v: Seq<Option<String>>) -> Seq<Option<Seq<char>>> {
    v.map_values(|o: Option<String>| o.deep_view())
}

/// The addresses that the reply to one of `batch_requests` gives, one for each of its items,
/// missing where the item is an error; nothing where the reply is no array.
pub open spec fn urls_in(reply: Json) -> Option<Seq<Option<Seq<char>>>> {
    match reply.items() {
        Some(items) => Some(items.map_values(|item: Json| item.text_field("g"@))),
        None => None,
    }
}

/// Reads the reply to one of `batch_requests`.
pub fn batch_urls(reply: &Json) -> (r: Option<Vec<Option<String>>>)
    ensures
        r is Some <==> urls_in(*reply) is Some,
        r is Some ==> opt_views(r->0@) == urls_in(*reply)->0,
{
    match reply.as_array() {
        None => None,
        Some(items) => {
            let mut urls: Vec<Option<String>> = Vec::new();
            let ghost all = urls_in(*reply)->0;
            let mut i: usize = 0;
            assert(opt_views(urls@) =~= all.take(0));
            while i < items.len()
                invariant
                    i <= items.len(),
                    all == items@.map_values(|item: Json| item.text_field("g"@)),
                    opt_views(urls@) == all.take(i as int),
                decreases items.len() - i,
            {
                let ghost before = opt_views(urls@);
                let url: Option<String> = match items[i].get_str("g") {
                    Some(url) => Some(url.to_owned()),
                    None => None,
                };
                urls.push(url);
                proof {
                    assert(url.deep_view() == all[i as int]);
                    assert(opt_views(urls@) =~= before.push(url.deep_view()));
                    assert(all.take(i + 1) =~= all.take(i as int).push(all[i as int]));
                }
                i = i + 1;
            }
            assert(all.take(all.len() as int) =~= all);
            Some(urls)
        },
    }
}

/// `slots` with the addresses `urls` put from position `start` on, as far as there are slots.
pub open spec fn placed(
    slots: Seq<Option<Seq<char>>>,
    start: int,
    urls: Seq<Option<Seq<char>>>,
) -> Seq<Option<Seq<char>>> {
    Seq::new(
        slots.len(),
        |k: int|
            if start <= k < start + urls.len() {
                urls[k - start]
            } else {
                slots[k]
            },
    )
}

/// What the replies to a batch each give, as texts.
pub open spec fn reply_views(v: Seq<Option<Vec<Option<String>>>>) -> Seq<
    Option<Seq<Option<Seq<char>>>>,
> {
    v.map_values(
        |o: Option<Vec<Option<String>>>|
            match o {
                Some(urls) => Some(opt_views(urls@)),
                None => None,
            },
    )
}

/// The addresses of `n` files after the replies to the first batches were read, in order. A
/// missing reply leaves its slots as they are.
pub open spec fn merged(n: nat, replies: Seq<Option<Seq<Option<Seq<char>>>>>) -> Seq<
    Option<Seq<char>>,
>
    decreases replies.len(),
{
    if replies.len() == 0 {
        Seq::new(n, |k: int| None)
    } else {
        let before = merged(n, replies.drop_last());
        match replies.last() {
            Some(urls) => placed(before, (replies.len() - 1) * BATCH_SIZE, urls),
            None => before,
        }
    }
}

/// Puts the addresses `urls` into `slots` from position `start` on.
fn place(slots: &mut Vec<Option<String>>, start: usize, urls: &Vec<Option<String>>)
    requires
        start <= old(slots)@.len(),
    ensures
        opt_views(final(slots)@) == placed(opt_views(old(slots)@), start as int, opt_views(urls@)),
{
    let n: usize = slots.len();
    let ghost first = opt_views(slots@);
    let mut i: usize = 0;
    assert(opt_views(slots@) =~= placed(first, start as int, opt_views(urls@).take(0)));
    while i < urls.len() && i < n - start
        invariant
            start <= n,
            n == slots@.len(),
            n == first.len(),
            i <= urls.len(),
            i <= n - start,
            opt_views(slots@) == placed(first, start as int, opt_views(urls@).take(i as int)),
        decreases urls.len() - i,
    {
        let ghost before = opt_views(slots@);
        let url: Option<String> = match &urls[i] {
            Some(url) => Some(url.clone()),
            None => None,
        };
        slots.set(start + i, url);
        proof {
            assert(url.deep_view() == opt_views(urls@)[i as int]);
            assert(opt_views(slots@) =~= before.update(start + i, url.deep_view()));
            assert(opt_views(slots@) =~= placed(
                first,
                start as int,
                opt_views(urls@).take(i + 1),
            ));
        }
        i = i + 1;
    }
    assert(opt_views(slots@) =~= placed(first, start as int, opt_views(urls@)));
}

/// The addresses of `n` files, put together from the replies to `batch_requests`.
pub fn merge_urls(n: usize, replies: &Vec<Option<Vec<Option<String>>>>) -> (r: Vec<Option<String>>)
    requires
        replies@.len() == batch_count(n as nat),
    ensures
        opt_views(r@) == merged(n as nat, reply_views(replies@)),
{
    let mut r: Vec<Option<String>> = Vec::new();
    let mut k: usize = 0;
    while k < n
        invariant
            k <= n,
            r@.len() == k,
            forall|j: int| 0 <= j < k ==> #[trigger] r@[j] is None,
        decreases n - k,
    {
        r.push(None);
        k = k + 1;
    }
    let ghost all = reply_views(replies@);
    let mut b: usize = 0;
    assert(opt_views(r@) =~= merged(n as nat, all.take(0)));
    while b < replies.len()
        invariant
            b <= replies.len(),
            replies@.len() == batch_count(n as nat),
            all == reply_views(replies@),
            r@.len() == n,
            opt_views(r@) == merged(n as nat, all.take(b as int)),
        decreases replies.len() - b,
    {
        proof {
            let front = all.take(b + 1);
            assert(front.drop_last() =~= all.take(b as int));
            assert(front.last() == all[b as int]);
        }
        if let Some(urls) = &replies[b] {
            place(&mut r, b * BATCH_SIZE, urls);
            assert(opt_views(r@).len() == r@.len());
        }
        b = b + 1;
    }
    assert(all.take(all.len() as int) =~= all);
    r
}

/// Where no reply holds more addresses than its batch has files, each file gets the address that
/// the reply to its own batch gives at its place, and none where that reply is missing or too
/// short.
pub proof fn law_urls_stay_in_batch(n: nat, replies: Seq<Option<Seq<Option<Seq<char>>>>>, k: int)
    requires
        forall|b: int|
            0 <= b < replies.len() && #[trigger] replies[b] is Some ==> replies[b]->0.len()
                <= BATCH_SIZE,
        0 <= k < n,
    ensures
        merged(n, replies).len() == n,
        merged(n, replies)[k] == if k / BATCH_SIZE as int >= replies.len() {
            None
        } else {
            match replies[k / BATCH_SIZE as int] {
                Some(urls) => if k % BATCH_SIZE as int >= urls.len() {
                    None
                } else {
                    urls[k % BATCH_SIZE as int]
                },
                None => None,
            }
        },
    decreases replies.len(),
{
    if replies.len() > 0 {
        let front = replies.drop_last();
        assert forall|b: int| 0 <= b < front.len() && #[trigger] front[b] is Some implies
            front[b]->0.len() <= BATCH_SIZE by {
            assert(front[b] == replies[b]);
        }
        law_urls_stay_in_batch(n, front, k);
        assert(replies[replies.len() - 1] == replies.last());
        if front.len() > k / BATCH_SIZE as int {
            assert(front[k / BATCH_SIZE as int] == replies[k / BATCH_SIZE as int]);
        }
    }
}

/// A request for a file names the file, as a JSON string, between a front and a back that are the
/// same for every file.
pub proof fn law_file_request(id: Seq<char>, other: Seq<char>)
    ensures
        ({
            let body = file_body(id);
            let name = json::json_string(id);
            let front = "[{\"a\":\"g\",\"g\":1,\"p\":"@.len() as int;
            &&& body.len() == front + name.len() + 2
            &&& body.take(front) == "[{\"a\":\"g\",\"g\":1,\"p\":"@
            &&& body.subrange(front, front + name.len()) == name
            &&& body.skip(front + name.len()) == seq!['}', ']']
            &&& body == file_body(other) <==> name == json::json_string(other)
        }),
{
    reveal_strlit("}]");
    let head = "[{\"a\":\"g\",\"g\":1,\"p\":"@;
    let name = json::json_string(id);
    let next = json::json_string(other);
    let front = head.len() as int;
    assert(file_body(id).take(front) =~= head);
    assert(file_body(id).subrange(front, front + name.len()) =~= name);
    assert(file_body(id).skip(front + name.len()) =~= seq!['}', ']']);
    assert(file_body(other).subrange(front, front + next.len()) =~= next);
    assert(file_body(id).len() == front + name.len() + 2);
    assert(file_body(other).len() == front + next.len() + 2);
}

/// What a request for several nodes is made of: a part for each, in their order, with a comma
/// between every two.
pub proof fn law_request_parts(a: Seq<Seq<char>>, b: Seq<Seq<char>>, handle: Seq<char>)
    ensures
        a.len() > 0 && b.len() > 0 ==> node_items(a + b) == node_items(a) + ","@ + node_items(b),
        node_items(seq![handle]) == "{\"a\":\"g\",\"g\":1,\"n\":"@ + json::json_string(handle)
            + "}"@,
        nodes_body(a) == "["@ + node_items(a) + "]"@,
    decreases b.len(),
{
    if a.len() > 0 && b.len() > 0 {
        let s = a + b;
        let front = b.drop_last();
        assert(s.drop_last() =~= a + front);
        assert(s.last() == b.last());
        if b.len() == 1 {
            assert(a + front =~= a);
            assert(b.last() == b[0]);
        } else {
            law_request_parts(a, front, handle);
            assert(node_items(a) + ","@ + node_items(front) + ","@ + node_item(b.last())
                =~= node_items(a) + ","@ + (node_items(front) + ","@ + node_item(b.last())));
        }
    }
}

/// What is no answer: a reply that is no array, or an empty one, has the wrong shape; a first item
/// that is a signed 64-bit number is an error of that number. So it is whatever was asked.
pub proof fn law_no_answer(reply: Json)
    ensures
        ({
            let shape = !(reply is List) || reply->List_0@.len() == 0;
            let first = reply->List_0@[0];
            &&& shape ==> dl_info(reply) == Err::<(Seq<char>, u64, Seq<char>), ApiError>(
                ApiError::BadShape,
            )
            &&& shape ==> nodes_in(reply) == Err::<Seq<Json>, ApiError>(ApiError::BadShape)
            &&& shape ==> url_in(reply) == Err::<Seq<char>, ApiError>(ApiError::BadShape)
            &&& !shape ==> {
                &&& first matches Json::Integer(n) ==> i64::MIN <= n <= i64::MAX ==> {
                    &&& dl_info(reply) == Err::<(Seq<char>, u64, Seq<char>), ApiError>(
                        ApiError::Code(n as i64),
                    )
                    &&& nodes_in(reply) == Err::<Seq<Json>, ApiError>(ApiError::Code(n as i64))
                    &&& url_in(reply) == Err::<Seq<char>, ApiError>(ApiError::Code(n as i64))
                }
            }
        }),
{
}

/// What an answer says: a file's address, size and attributes, a folder's nodes, or a node's
/// address, exactly where they are there, and else that something is missing.
pub proof fn law_answer(reply: Json, first: Json)
    requires
        reply is List,
        reply->List_0@.len() > 0,
        first == reply->List_0@[0],
        first is Object,
    ensures
        first.text_field("g"@) is Some && first.unsigned_field("s"@) is Some && first.text_field(
            "at"@,
        ) is Some ==> dl_info(reply) == Ok::<(Seq<char>, u64, Seq<char>), ApiError>(
            (
                first.text_field("g"@)->0,
                first.unsigned_field("s"@)->0,
                first.text_field("at"@)->0,
            ),
        ),
        first.text_field("g"@) is None || first.unsigned_field("s"@) is None || first.text_field(
            "at"@,
        ) is None ==> dl_info(reply) == Err::<(Seq<char>, u64, Seq<char>), ApiError>(
            ApiError::Incomplete,
        ),
        first.field("f"@) matches Some(Json::List(nodes)) ==> nodes_in(reply) == Ok::<
            Seq<Json>,
            ApiError,
        >(nodes@),
        !(first.field("f"@) is Some && first.field("f"@)->0 is List) ==> nodes_in(reply) == Err::<
            Seq<Json>,
            ApiError,
        >(ApiError::Incomplete),
        first.text_field("g"@) matches Some(url) ==> url_in(reply) == Ok::<Seq<char>, ApiError>(
            url,
        ),
        first.text_field("g"@) is None ==> url_in(reply) == Err::<Seq<char>, ApiError>(
            ApiError::Incomplete,
        ),
{
}

/// An answer that is no object says nothing, but that an array of three may be a file's address, size
/// and attributes.
pub proof fn law_odd_answer(reply: Json, first: Json)
    requires
        reply is List,
        reply->List_0@.len() > 0,
        first == reply->List_0@[0],
        first !is Object,
        first matches Json::Integer(n) ==> n < i64::MIN || n > i64::MAX,
    ensures
        nodes_in(reply) == Err::<Seq<Json>, ApiError>(ApiError::Incomplete),
        url_in(reply) == Err::<Seq<char>, ApiError>(ApiError::Incomplete),
        first !is List ==> dl_info(reply) == Err::<(Seq<char>, u64, Seq<char>), ApiError>(
            ApiError::Incomplete,
        ),
        first matches Json::List(v) ==> {
            &&& v@.len() == 3 && v@[0] is Text && v@[1] is Integer && 0 <= v@[1]->Integer_0
                <= u64::MAX && v@[2] is Text ==> dl_info(reply) == Ok::<
                (Seq<char>, u64, Seq<char>),
                ApiError,
            >((v@[0]->Text_0@, v@[1]->Integer_0 as u64, v@[2]->Text_0@))
            &&& !(v@.len() == 3 && v@[0] is Text && v@[1] is Integer && 0 <= v@[1]->Integer_0
                <= u64::MAX && v@[2] is Text) ==> dl_info(reply) == Err::<
                (Seq<char>, u64, Seq<char>),
                ApiError,
            >(ApiError::Incomplete)
        },
{
}

/// What the reply to a batch gives: as many addresses as it has items, each that of its item, or
/// none where the item has none.
pub proof fn law_batch_reply(reply: Json, k: int)
    ensures
        urls_in(reply) is Some <==> reply is List,
        reply is List ==> urls_in(reply)->0.len() == reply->List_0@.len(),
        reply is List && 0 <= k < reply->List_0@.len() ==> urls_in(reply)->0[k]
            == reply->List_0@[k].text_field("g"@),
{
}

/// Each place takes the address of the last reply that reaches to it, whatever the lengths, and stays
/// empty where none does.
pub proof fn law_last_reply_counts(
    n: nat,
    replies: Seq<Option<Seq<Option<Seq<char>>>>>,
    k: int,
    b: int,
)
    requires
        0 <= k < n,
    ensures
        merged(n, replies).len() == n,
        0 <= b < replies.len() && replies[b] is Some && b * BATCH_SIZE <= k < b * BATCH_SIZE
            + replies[b]->0.len() && (forall|c: int|
            b < c < replies.len() && (#[trigger] replies[c]) is Some ==> !(c * BATCH_SIZE <= k < c
                * BATCH_SIZE + replies[c]->0.len())) ==> merged(n, replies)[k] == replies[b]->0[k
            - b * BATCH_SIZE],
        (forall|c: int|
            0 <= c < replies.len() && (#[trigger] replies[c]) is Some ==> !(c * BATCH_SIZE <= k < c
                * BATCH_SIZE + replies[c]->0.len())) ==> merged(n, replies)[k] is None,
    decreases replies.len(),
{
    if replies.len() > 0 {
        let front = replies.drop_last();
        law_last_reply_counts(n, front, k, b);
        assert(forall|c: int| 0 <= c < front.len() ==> #[trigger] front[c] == replies[c]);
        assert(replies[replies.len() - 1] == replies.last());
    }
}

} // verus!
