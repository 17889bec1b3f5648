//! Paths of Unix systems, as texts with `/` between their components. A backslash or a drive letter
//! is a part of a name like any other. Other systems read paths in their own ways, which are not
//! modelled here.

use vstd::prelude::*;
use vstd::string::{StrSliceExecFns, StringExecFns};

use crate::text;

verus! {

/// How many characters at the front of `p` are a component of their own: the root, or a single
/// dot that the path starts with.
pub open spec fn lead(p: Seq<char>) -> int {
    if p.len() > 0 && (p[0] == '/' || p[0] == '.' && (p.len() == 1 || p[1] == '/')) {
        1
    } else {
        0
    }
}

/// `s` counts as a component: an empty piece between two slashes and a single dot do not.
pub open spec fn is_component(s: Seq<char>) -> bool {
    s.len() > 0 && s != seq!['.']
}

/// The components of the path `p`.
pub open spec fn components(p: Seq<char>) -> Seq<Seq<char>> {
    let body = text::split(p.skip(lead(p)), '/').filter(|s: Seq<char>| is_component(s));
    if lead(p) == 1 {
        seq![p.take(1)] + body
    } else {
        body
    }
}

/// The path `name`, seen from `base`: below it, unless `name` starts at the root.
pub open spec fn join(base: Seq<char>, name: Seq<char>) -> Seq<char> {
    if name.len() > 0 && name[0] == '/' {
        name
    } else if base.len() == 0 || base.last() == '/' {
        base + name
    } else {
        base.push('/') + name
    }
}

/// The path with the components `parts`.
pub open spec fn collect(parts: Seq<Seq<char>>) -> Seq<char>
    decreases parts.len(),
{
    if parts.len() == 0 {
        seq![]
    } else {
        join(collect(parts.drop_last()), parts.last())
    }
}

/// The path `p` less its first component; a path of one component, or none, stays as it is.
pub open spec fn below_first(p: Seq<char>) -> Seq<char> {
    if components(p).len() > 1 {
        collect(components(p).skip(1))
    } else {
        p
    }
}

/// The name of the file that `p` leads to: its last component, unless that is the root, a single
/// dot or two dots.
pub open spec fn file_name(p: Seq<char>) -> Option<Seq<char>> {
    let parts = components(p);
    if parts.len() > 0 && parts.last() != seq!['/'] && parts.last() != seq!['.'] && parts.last()
        != seq!['.', '.'] {
        Some(parts.last())
    } else {
        None
    }
}

/// Where the part of `p` before its last piece ends, not counting the slash between them.
pub open spec fn cut_point(p: Seq<char>) -> int {
    let i = text::last_index_of(p.skip(lead(p)), '/');
    if i < 0 {
        lead(p)
    } else {
        lead(p) + i
    }
}

/// The last piece of `p` between slashes.
pub open spec fn last_piece(p: Seq<char>) -> Seq<char> {
    p.skip(lead(p) + text::last_index_of(p.skip(lead(p)), '/') + 1)
}

/// `p` less what stands at its back without being a component.
pub open spec fn tidy(p: Seq<char>) -> Seq<char>
    decreases p.len(),
{
    if p.len() > lead(p) && 0 <= cut_point(p) < p.len() && !is_component(last_piece(p)) {
        tidy(p.take(cut_point(p)))
    } else {
        p
    }
}

/// The path that leads to where `p` is listed; none for the root and the empty path.
pub open spec fn parent(p: Seq<char>) -> Option<Seq<char>> {
    let t = tidy(p);
    if t.len() > lead(t) {
        Some(tidy(t.take(cut_point(t))))
    } else if t == seq!['.'] {
        Some(seq![])
    } else {
        None
    }
}

/// The path `p` with `name` for its file name.
pub open spec fn with_file_name(p: Seq<char>, name: Seq<char>) -> Seq<char> {
    match (file_name(p), parent(p)) {
        (Some(_), Some(dir)) => join(dir, name),
        _ => join(p, name),
    }
}

/// The path of the file that keeps the progress of a download into `part`: beside it, with
/// `.meta` behind its name.
pub open spec fn state_path_of(part: Seq<char>) -> Seq<char> {
    let name = match file_name(part) {
        Some(name) => name,
        None => seq![],
    };
    with_file_name(part, name + ".meta"@)
}

fn lead_of(cs: &[char]) -> (r: usize)
    ensures
        r == lead(cs@),
{
    if cs.len() > 0 && (cs[0] == '/' || (cs[0] == '.' && (cs.len() == 1 || cs[1] == '/'))) {
        1
    } else {
        0
    }
}

fn is_component_text(s: &str) -> (r: bool)
    ensures
        r == is_component(s@),
{
    proof {
        reveal_strlit(".");
        assert("."@ =~= seq!['.']);
    }
    !s.is_empty() && !text::same_text(s, ".")
}

/// The components of a path.
pub fn components_of<'a>(p: &'a str) -> (r: Vec<&'a str>)
    ensures
        text::views(r@) == components(p@),
{
    let cs = text::chars_of(p);
    let b: usize = lead_of(cs.as_slice());
    let mut r: Vec<&'a str> = Vec::new();
    if b == 1 {
        let first = p.substring_char(0, 1);
        r.push(first);
        assert(first@ =~= p@.take(1));
    }
    let ghost head = text::views(r@);
    let body = p.substring_char(b, cs.len());
    assert(body@ =~= p@.skip(b as int));
    let pieces = text::split_on(body, '/');
    let ghost all = text::split(body@, '/');
    let ghost keep = |s: Seq<char>| is_component(s);
    let mut i: usize = 0;
    proof {
        reveal(Seq::filter);
        assert(text::views(r@) =~= head + all.take(0).filter(keep));
    }
    while i < pieces.len()
        invariant
            keep == (|s: Seq<char>| is_component(s)),
            text::views(pieces@) == all,
            i <= pieces.len(),
            text::views(r@) == head + all.take(i as int).filter(keep),
        decreases pieces.len() - i,
    {
        let piece: &'a str = pieces[i];
        let ghost before = text::views(r@);
        proof {
            reveal(Seq::filter);
            assert(all[i as int] == piece@);
            assert(all.take(i + 1).drop_last() =~= all.take(i as int));
        }
        if is_component_text(piece) {
            r.push(piece);
            assert(text::views(r@) =~= before.push(piece@));
        }
        assert(text::views(r@) =~= head + all.take(i + 1).filter(keep));
        i = i + 1;
    }
    assert(all.take(all.len() as int) =~= all);
    assert(text::views(r@) =~= components(p@));
    r
}

/// The path `name`, seen from `base`.
pub fn joined(base: &str, name: &str) -> (r: String)
    ensures
        r@ == join(base@, name@),
{
    let n = text::chars_of(name);
    if n.len() > 0 && n[0] == '/' {
        return name.to_owned();
    }
    let b = text::chars_of(base);
    let mut r: String = base.to_owned();
    if b.len() > 0 && b[b.len() - 1] != '/' {
        proof {
            reveal_strlit("/");
        }
        r.append("/");
        assert(r@ =~= base@.push('/'));
    }
    r.append(name);
    r
}

/// The path with the components `parts`.
pub fn collected(parts: &Vec<String>) -> (r: String)
    ensures
        r@ == collect(text::text_views(parts@)),
{
    let ghost all = text::text_views(parts@);
    let mut r: String = String::new();
    let mut i: usize = 0;
    assert(all.take(0) =~= seq![]);
    while i < parts.len()
        invariant
            i <= parts.len(),
            all == text::text_views(parts@),
            r@ == collect(all.take(i as int)),
        decreases parts.len() - i,
    {
        r = joined(r.as_str(), parts[i].as_str());
        proof {
            assert(all.take(i + 1).drop_last() =~= all.take(i as int));
            assert(all.take(i + 1).last() == parts@[i as int]@);
        }
        i = i + 1;
    }
    assert(all.take(all.len() as int) =~= all);
    r
}

/// The path `p` less its first component; a path of one component, or none, stays as it is.
pub fn without_first(p: &str) -> (r: String)
    ensures
        r@ == below_first(p@),
{
    let parts = components_of(p);
    if parts.len() <= 1 {
        return p.to_owned();
    }
    let ghost all = components(p@);
    let mut r: String = String::new();
    let mut i: usize = 1;
    assert(all.skip(1).take(0) =~= seq![]);
    while i < parts.len()
        invariant
            text::views(parts@) == all,
            1 <= i <= parts.len(),
            r@ == collect(all.skip(1).take(i - 1)),
        decreases parts.len() - i,
    {
        r = joined(r.as_str(), parts[i]);
        proof {
            assert(all[i as int] == parts@[i as int]@);
            let more = all.skip(1).take(i as int);
            assert(more.drop_last() =~= all.skip(1).take(i - 1));
            assert(more.last() == all[i as int]);
        }
        i = i + 1;
    }
    assert(all.skip(1).take(all.len() - 1) =~= all.skip(1));
    r
}

/// The name of the file that `p` leads to.
pub fn file_name_of<'a>(p: &'a str) -> (r: Option<&'a str>)
    ensures
        r is Some <==> file_name(p@) is Some,
        r is Some ==> r->0@ == file_name(p@)->0,
{
    let parts = components_of(p);
    if parts.len() == 0 {
        return None;
    }
    let last: &'a str = parts[parts.len() - 1];
    proof {
        assert(components(p@).last() == last@);
        reveal_strlit("/");
        reveal_strlit(".");
        reveal_strlit("..");
        assert("/"@ =~= seq!['/']);
        assert("."@ =~= seq!['.']);
        assert(".."@ =~= seq!['.', '.']);
    }
    if text::same_text(last, "/") || text::same_text(last, ".") || text::same_text(last, "..") {
        None
    } else {
        Some(last)
    }
}

/// The front of a path that keeps its lead has the same lead.
proof fn lemma_lead_of_front(p: Seq<char>, n: int)
    requires
        lead(p) <= n <= p.len(),
        n < p.len() ==> n == lead(p) || p[n] == '/',
    ensures
        lead(p.take(n)) == lead(p),
{
}

/// Where the last slash behind the lead stands, or the end of the lead.
fn cut_point_of(cs: &[char], b: usize) -> (r: (usize, usize))
    requires
        b == lead(cs@),
        cs@.len() > b,
    ensures
        r.0 == cut_point(cs@),
        cs@.skip(r.1 as int) == last_piece(cs@),
        b <= r.0 <= r.1 <= cs@.len(),
        r.0 < cs@.len(),
        r.0 == b || cs@[r.0 as int] == '/',
{
    let ghost body = cs@.skip(b as int);
    let mut j: usize = cs.len();
    proof {
        text::lemma_last_index_of(body, '/');
    }
    while j > b && cs[j - 1] != '/'
        invariant
            b <= j <= cs@.len(),
            body == cs@.skip(b as int),
            forall|k: int| j - b <= k < body.len() ==> body[k] != '/',
        decreases j,
    {
        assert(body[j - 1 - b] == cs@[j - 1]);
        j = j - 1;
    }
    if j == b {
        assert(text::last_index_of(body, '/') == -1);
        (b, b)
    } else {
        assert(body[j - 1 - b] == cs@[j - 1]);
        assert(text::last_index_of(body, '/') == j - 1 - b);
        (j - 1, j)
    }
}

/// The length of what is left of `cs[..n]` once it is tidied.
fn tidy_len(cs: &[char], n: usize) -> (r: usize)
    requires
        n <= cs@.len(),
        lead(cs@.take(n as int)) == lead(cs@),
    ensures
        r <= n,
        cs@.take(r as int) == tidy(cs@.take(n as int)),
        lead(cs@.take(r as int)) == lead(cs@),
{
    let b: usize = lead_of(cs);
    let mut m: usize = n;
    loop
        invariant_except_break
            tidy(cs@.take(m as int)) == tidy(cs@.take(n as int)),
        invariant
            b == lead(cs@),
            m <= n <= cs@.len(),
            lead(cs@.take(m as int)) == b,
        ensures
            cs@.take(m as int) == tidy(cs@.take(n as int)),
        decreases m,
    {
        let ghost p = cs@.take(m as int);
        if m <= b {
            assert(tidy(p) == p);
            break;
        }
        let front = vstd::slice::slice_subrange(cs, 0, m);
        assert(front@ =~= p);
        let (at, piece) = cut_point_of(front, b);
        let rest = vstd::slice::slice_subrange(front, piece, m);
        assert(rest@ =~= last_piece(p));
        if rest.len() == 0 || (rest.len() == 1 && rest[0] == '.') {
            proof {
                assert(rest@.len() == 1 ==> rest@ =~= seq![rest@[0]]);
                lemma_lead_of_front(p, at as int);
                assert(p.take(at as int) =~= cs@.take(at as int));
            }
            m = at;
        } else {
            assert(rest@.len() == 1 ==> rest@ =~= seq![rest@[0]]);
            assert(tidy(p) == p);
            break;
        }
    }
    m
}

/// The path that leads to where `p` is listed.
pub fn parent_of<'a>(p: &'a str) -> (r: Option<&'a str>)
    ensures
        r is Some <==> parent(p@) is Some,
        r is Some ==> r->0@ == parent(p@)->0,
{
    let cs = text::chars_of(p);
    let b: usize = lead_of(cs.as_slice());
    assert(p@.take(p@.len() as int) =~= p@);
    let n: usize = tidy_len(cs.as_slice(), cs.len());
    let ghost t = p@.take(n as int);
    if n > b {
        let front = vstd::slice::slice_subrange(cs.as_slice(), 0, n);
        assert(front@ =~= t);
        let (at, _) = cut_point_of(front, b);
        proof {
            lemma_lead_of_front(t, at as int);
            assert(t.take(at as int) =~= p@.take(at as int));
        }
        let m: usize = tidy_len(cs.as_slice(), at);
        let dir = p.substring_char(0, m);
        assert(dir@ =~= p@.take(m as int));
        Some(dir)
    } else if n == 1 && cs[0] == '.' {
        assert(t =~= seq!['.']);
        let dir = p.substring_char(0, 0);
        assert(dir@ =~= seq![]);
        Some(dir)
    } else {
        assert(t == seq!['.'] ==> t.len() == 1 && t[0] == '.');
        None
    }
}

/// The path of the file that keeps the progress of a download into `part_path`.
pub fn state_path(part_path: &str) -> (r: String)
    ensures
        r@ == state_path_of(part_path@),
{
    match file_name_of(part_path) {
        Some(name) => {
            let mut meta: String = name.to_owned();
            meta.append(".meta");
            match parent_of(part_path) {
                Some(dir) => joined(dir, meta.as_str()),
                None => joined(part_path, meta.as_str()),
            }
        },
        None => {
            assert(seq![] + ".meta"@ =~= ".meta"@);
            joined(part_path, ".meta")
        },
    }
}

/// To tidy a path again changes nothing.
proof fn lemma_tidy_twice(p: Seq<char>)
    ensures
        tidy(tidy(p)) == tidy(p),
    decreases p.len(),
{
    if p.len() > lead(p) && 0 <= cut_point(p) < p.len() && !is_component(last_piece(p)) {
        lemma_tidy_twice(p.take(cut_point(p)));
    }
}

/// What filtering leaves of pieces with one more behind them.
proof fn lemma_filter_push(pieces: Seq<Seq<char>>, last: Seq<char>)
    ensures
        pieces.push(last).filter(|s: Seq<char>| is_component(s)) == if is_component(last) {
            pieces.filter(|s: Seq<char>| is_component(s)).push(last)
        } else {
            pieces.filter(|s: Seq<char>| is_component(s))
        },
{
    reveal(Seq::filter);
    assert(pieces.push(last).drop_last() =~= pieces);
}

/// What filtering leaves of one piece.
proof fn lemma_filter_one(s: Seq<char>)
    ensures
        seq![s].filter(|x: Seq<char>| is_component(x)) == if is_component(s) {
            seq![s]
        } else {
            seq![]
        },
{
    let none = Seq::<Seq<char>>::empty();
    lemma_filter_push(none, s);
    assert(none.push(s) =~= seq![s]);
    assert(none.filter(|x: Seq<char>| is_component(x)) =~= none) by {
        reveal(Seq::filter);
    }
}

/// A last piece that is no component can go without a change to the components.
proof fn lemma_drop_piece(p: Seq<char>)
    requires
        p.len() > lead(p),
        !is_component(last_piece(p)),
    ensures
        0 <= cut_point(p) < p.len(),
        components(p.take(cut_point(p))) == components(p),
{
    let q = p.take(cut_point(p));
    let body = p.skip(lead(p));
    let i = text::last_index_of(body, '/');
    text::lemma_last_index_of(body, '/');
    text::lemma_split_last(body, '/');
    if i >= 0 {
        assert(p[lead(p) + i] == body[i]);
    }
    lemma_lead_of_front(p, cut_point(p));
    assert(q.take(lead(p)) =~= p.take(lead(p)));
    if i < 0 {
        let none = Seq::<char>::empty();
        assert(q.skip(lead(p)) =~= none);
        assert(last_piece(p) =~= body);
        assert(text::split(none, '/') =~= seq![none]);
        lemma_filter_one(body);
        lemma_filter_one(none);
    } else {
        assert(q.skip(lead(p)) =~= body.take(i));
        assert(last_piece(p) =~= body.skip(i + 1));
        lemma_filter_push(text::split(body.take(i), '/'), body.skip(i + 1));
    }
}

/// To tidy a path keeps its components.
proof fn lemma_tidy_components(p: Seq<char>)
    ensures
        components(tidy(p)) == components(p),
    decreases p.len(),
{
    if p.len() > lead(p) && 0 <= cut_point(p) < p.len() && !is_component(last_piece(p)) {
        lemma_drop_piece(p);
        lemma_tidy_components(p.take(cut_point(p)));
    }
}

/// `name` can be the name of a file.
pub open spec fn is_plain(name: Seq<char>) -> bool {
    &&& name.len() > 0
    &&& !name.contains('/')
    &&& name != seq!['.']
    &&& name != seq!['.', '.']
}

/// A file name holds no slash at any place, and is a component.
proof fn lemma_plain(name: Seq<char>)
    requires
        is_plain(name),
    ensures
        is_component(name),
        lead(name) == 0,
        forall|k: int| 0 <= k < name.len() ==> name[k] != '/',
{
    assert forall|k: int| 0 <= k < name.len() implies name[k] != '/' by {
        if name[k] == '/' {
            assert(name.contains('/'));
        }
    }
    assert(name.len() == 1 ==> name =~= seq![name[0]]);
}

/// Where a file name stands in the path that it was put at the back of.
proof fn lemma_join_shape(dir: Seq<char>, name: Seq<char>)
    requires
        is_plain(name),
    ensures
        ({
            let p = join(dir, name);
            let at = p.len() - name.len();
            &&& p.skip(at) == name
            &&& lead(p) <= at
            &&& at > 0 ==> p[at - 1] == '/'
            &&& text::last_index_of(p.skip(lead(p)), '/') == at - 1 - lead(p)
        }),
{
    let p = join(dir, name);
    let at = p.len() - name.len();
    lemma_plain(name);
    assert(p.skip(at) =~= name);
    assert(forall|k: int| at <= k < p.len() ==> p[k] == name[k - at]);
    assert(at > 0 ==> p[at - 1] == '/');
    assert(lead(p) <= at) by {
        if at == 0 {
            assert(p =~= name);
        }
    }
    let body = p.skip(lead(p));
    let i = text::last_index_of(body, '/');
    text::lemma_last_index_of(body, '/');
    if at > lead(p) {
        assert(body[at - 1 - lead(p)] == p[at - 1]);
        assert(i >= at - 1 - lead(p));
    }
    if i > at - 1 - lead(p) {
        assert(body[i] == p[lead(p) + i]);
        assert(false);
    }
}

/// A path that ends in a slash behind more than the root is tidied like the path without it.
proof fn lemma_tidy_slash(dir: Seq<char>)
    requires
        dir.len() > lead(dir),
        dir.last() == '/',
    ensures
        tidy(dir) == tidy(dir.drop_last()),
{
    let rest = dir.skip(lead(dir));
    text::lemma_last_index_of(rest, '/');
    assert(rest[rest.len() - 1] == '/');
    assert(text::last_index_of(rest, '/') == rest.len() - 1);
    assert(last_piece(dir) =~= seq![]);
    assert(dir.take(cut_point(dir)) =~= dir.drop_last());
}

/// A file name put behind a directory can be taken off again: what is left is the directory, less
/// what stands at its back without being a component.
pub proof fn law_join_and_part(dir: Seq<char>, name: Seq<char>)
    requires
        is_plain(name),
    ensures
        file_name(join(dir, name)) == Some(name),
        parent(join(dir, name)) == Some(tidy(dir)),
{
    let p = join(dir, name);
    let at = p.len() - name.len();
    lemma_plain(name);
    lemma_join_shape(dir, name);
    assert(last_piece(p) == name);
    assert(tidy(p) == p);
    assert(file_name(p) == Some(name)) by {
        let body = p.skip(lead(p));
        let i = text::last_index_of(body, '/');
        text::lemma_split_last(body, '/');
        assert(body.skip(i + 1) =~= name);
        if i < 0 {
            assert(body =~= name);
            lemma_filter_one(name);
        } else {
            lemma_filter_push(text::split(body.take(i), '/'), name);
        }
        assert(components(p).last() == name);
        assert(name[0] != '/');
    }
    let front = p.take(cut_point(p));
    assert(tidy(front) == tidy(dir)) by {
        if dir.len() > 0 && dir.last() == '/' && at > lead(p) {
            assert(front =~= dir.drop_last());
            assert(dir.len() == at);
            assert(lead(dir) == lead(p)) by {
                assert(dir[0] == p[0]);
                if dir.len() > 1 {
                    assert(dir[1] == p[1]);
                }
            }
            lemma_tidy_slash(dir);
        } else {
            assert(front =~= dir);
        }
    }
}

/// A file name holds no slash and is neither a single dot nor two.
proof fn lemma_file_name_is_plain(p: Seq<char>)
    requires
        file_name(p) is Some,
    ensures
        is_plain(file_name(p)->0),
{
    let body = p.skip(lead(p));
    let pieces = text::split(body, '/');
    let keep = |s: Seq<char>| is_component(s);
    let kept = pieces.filter(keep);
    text::lemma_split_pieces(body, '/');
    assert(kept.len() > 0) by {
        if kept.len() == 0 {
            assert(components(p) =~= if lead(p) == 1 {
                seq![p.take(1)]
            } else {
                seq![]
            });
            if lead(p) == 1 {
                assert(p.take(1) =~= seq![p[0]]);
            }
        }
    }
    assert(components(p).last() == kept.last());
    assert(kept.contains(kept[kept.len() - 1]));
    pieces.lemma_filter_contains_rev(keep, kept.last());
    pieces.lemma_filter_pred(keep, kept.len() - 1);
    let k = choose|k: int| 0 <= k < pieces.len() && pieces[k] == kept.last();
    assert(!pieces[k].contains('/'));
}

/// A path that ends in a file name has one left when it is tidied.
proof fn lemma_named(p: Seq<char>)
    requires
        file_name(p) is Some,
    ensures
        tidy(p).len() > lead(tidy(p)),
        components(tidy(p)) == components(p),
{
    let t = tidy(p);
    lemma_tidy_components(p);
    assert(t.len() > lead(t)) by {
        if t.len() <= lead(t) {
            assert(t.skip(lead(t)) =~= seq![]);
            assert(text::split(seq![], '/') =~= seq![Seq::<char>::empty()]);
            lemma_filter_one(seq![]);
            if lead(t) == 1 {
                assert(components(t) =~= seq![t.take(1)]);
                assert(t.take(1) =~= seq![t[0]]);
            } else {
                assert(components(t) =~= seq![]);
            }
            assert(false);
        }
    }
}

/// The progress of a download is kept beside the file that it writes to: in the same directory,
/// under its name with `.meta` behind it.
pub proof fn law_state_beside_part(part: Seq<char>)
    requires
        file_name(part) is Some,
    ensures
        parent(state_path_of(part)) == parent(part),
        file_name(state_path_of(part)) == Some(file_name(part)->0 + ".meta"@),
{
    let name = file_name(part)->0;
    let t = tidy(part);
    lemma_named(part);
    let dir = parent(part)->0;
    lemma_tidy_twice(t.take(cut_point(t)));
    lemma_file_name_is_plain(part);
    reveal_strlit(".meta");
    let meta = name + ".meta"@;
    assert(!meta.contains('/')) by {
        if meta.contains('/') {
            let k = choose|k: int| 0 <= k < meta.len() && meta[k] == '/';
            if k < name.len() {
                assert(name[k] == '/');
                assert(name.contains('/'));
            } else {
                assert(".meta"@[k - name.len()] == '/');
            }
        }
    }
    assert(meta.len() >= 6);
    assert(is_plain(meta));
    law_join_and_part(dir, meta);
}

/// A last piece that is a component is the last of the components, behind those of what stands
/// before it.
proof fn lemma_last_piece(p: Seq<char>)
    requires
        p.len() > lead(p),
        is_component(last_piece(p)),
    ensures
        components(p) == components(p.take(cut_point(p))).push(last_piece(p)),
{
    let q = p.take(cut_point(p));
    let body = p.skip(lead(p));
    let i = text::last_index_of(body, '/');
    text::lemma_last_index_of(body, '/');
    text::lemma_split_last(body, '/');
    if i >= 0 {
        assert(p[lead(p) + i] == body[i]);
    }
    lemma_lead_of_front(p, cut_point(p));
    assert(q.take(lead(p)) =~= p.take(lead(p)));
    if i < 0 {
        let none = Seq::<char>::empty();
        assert(q.skip(lead(p)) =~= none);
        assert(last_piece(p) =~= body);
        assert(text::split(none, '/') =~= seq![none]);
        lemma_filter_one(body);
        lemma_filter_one(none);
        assert(components(p) =~= components(q).push(body));
    } else {
        assert(q.skip(lead(p)) =~= body.take(i));
        assert(last_piece(p) =~= body.skip(i + 1));
        lemma_filter_push(text::split(body.take(i), '/'), body.skip(i + 1));
        assert(components(p) =~= components(q).push(body.skip(i + 1)));
    }
}

/// The components of a path that ends in a file name are those of its parent, and that name.
pub proof fn law_parent_and_name(p: Seq<char>)
    requires
        file_name(p) is Some,
    ensures
        parent(p) is Some,
        components(p) == components(parent(p)->0).push(file_name(p)->0),
{
    let t = tidy(p);
    lemma_named(p);
    lemma_tidy_twice(p);
    text::lemma_last_index_of(t.skip(lead(t)), '/');
    assert(is_component(last_piece(t))) by {
        if !is_component(last_piece(t)) {
            lemma_drop_piece(t);
            lemma_tidy_shorter(t.take(cut_point(t)));
            assert(tidy(t) == tidy(t.take(cut_point(t))));
        }
    }
    lemma_last_piece(t);
    lemma_tidy_components(t.take(cut_point(t)));
}

/// To tidy a path adds nothing to it.
proof fn lemma_tidy_shorter(p: Seq<char>)
    ensures
        tidy(p).len() <= p.len(),
    decreases p.len(),
{
    if p.len() > lead(p) && 0 <= cut_point(p) < p.len() && !is_component(last_piece(p)) {
        lemma_tidy_shorter(p.take(cut_point(p)));
    }
}

/// Two texts are the same path: they have the same components.
pub open spec fn is_same_path(p: Seq<char>, q: Seq<char>) -> bool {
    components(p) == components(q)
}

/// The components of where the progress of a download is kept: those of the file that it writes
/// to, with `.meta` behind the last.
proof fn lemma_state_components(p: Seq<char>)
    requires
        file_name(p) is Some,
    ensures
        components(state_path_of(p)) == components(parent(p)->0).push(
            file_name(p)->0 + ".meta"@,
        ),
{
    law_parent_and_name(p);
    law_state_beside_part(p);
    law_parent_and_name(state_path_of(p));
}

/// No two downloads share a file for their progress, and none keeps it in the file that it writes
/// to.
pub proof fn law_state_paths_differ(p: Seq<char>, q: Seq<char>)
    requires
        file_name(p) is Some,
        file_name(q) is Some,
    ensures
        is_same_path(state_path_of(p), state_path_of(q)) <==> is_same_path(p, q),
        !is_same_path(state_path_of(p), p),
{
    lemma_state_components(p);
    lemma_state_components(q);
    law_parent_and_name(p);
    law_parent_and_name(q);
    reveal_strlit(".meta");
    let (dp, np) = (components(parent(p)->0), file_name(p)->0);
    let (dq, nq) = (components(parent(q)->0), file_name(q)->0);
    let (mp, mq) = (np + ".meta"@, nq + ".meta"@);
    assert(dp.push(mp).last() == mp && dq.push(mq).last() == mq);
    assert(dp.push(np).last() == np && dq.push(nq).last() == nq);
    assert(dp.push(mp).drop_last() =~= dp && dq.push(mq).drop_last() =~= dq);
    assert(dp.push(np).drop_last() =~= dp && dq.push(nq).drop_last() =~= dq);
    assert(mp.take(mp.len() - 5) =~= np && mq.take(mq.len() - 5) =~= nq);
    assert(mp.len() == np.len() + 5);
}

/// `name` stands for itself as a component of a path: it is not empty, has no slash, and is not a
/// single dot.
pub open spec fn is_one_component(name: Seq<char>) -> bool {
    &&& name.len() > 0
    &&& !name.contains('/')
    &&& name != seq!['.']
}

/// To put a name behind a directory adds that name to the components, and changes no other.
pub proof fn law_join_adds_a_component(dir: Seq<char>, name: Seq<char>)
    requires
        is_one_component(name),
    ensures
        components(join(dir, name)) == components(dir).push(name),
{
    let p = join(dir, name);
    let body = p.skip(lead(p));
    let i = text::last_index_of(body, '/');
    let at = p.len() - name.len();
    assert forall|k: int| 0 <= k < name.len() implies name[k] != '/' by {
        if name[k] == '/' {
            assert(name.contains('/'));
        }
    }
    assert(name.len() == 1 ==> name =~= seq![name[0]]);
    assert(forall|k: int| at <= k < p.len() ==> p[k] == name[k - at]);
    assert(at > 0 ==> p[at - 1] == '/');
    text::lemma_last_index_of(body, '/');
    assert(lead(p) <= at) by {
        if at == 0 {
            assert(p =~= name);
        }
    }
    assert(i == at - 1 - lead(p)) by {
        if at > lead(p) {
            assert(body[at - 1 - lead(p)] == p[at - 1]);
            assert(i >= at - 1 - lead(p));
        }
        if i > at - 1 - lead(p) {
            assert(body[i] == p[lead(p) + i]);
            assert(false);
        }
    }
    assert(last_piece(p) =~= name);
    assert(is_component(name));
    lemma_last_piece(p);
    let cut = cut_point(p);
    if dir.len() == 0 {
        assert(p =~= name);
        assert(p.take(cut) =~= dir);
    } else if dir.last() != '/' {
        assert(p.take(cut) =~= dir);
    } else if at == lead(p) {
        assert(p.take(cut) =~= dir);
    } else {
        assert(p.take(cut) =~= dir.drop_last());
        assert(lead(dir) == lead(p));
        let rest = dir.skip(lead(dir));
        assert(rest.last() == '/');
        assert(text::last_index_of(rest, '/') == rest.len() - 1);
        assert(last_piece(dir) =~= seq![]);
        assert(dir.take(cut_point(dir)) =~= dir.drop_last());
        lemma_drop_piece(dir);
    }
}

/// The paths that others are built from: the empty path has no component, the root and the single
/// dot have themselves.
pub proof fn law_first_components()
    ensures
        components(seq![]) == Seq::<Seq<char>>::empty(),
        components(seq!['/']) == seq![seq!['/']],
        components(seq!['.']) == seq![seq!['.']],
{
    let none = Seq::<char>::empty();
    assert(text::split(none, '/') =~= seq![none]);
    lemma_filter_one(none);
    assert(none.skip(0) =~= none);
    assert(seq!['/'].skip(1) =~= none);
    assert(seq!['.'].skip(1) =~= none);
    assert(seq!['/'].take(1) =~= seq!['/']);
    assert(seq!['.'].take(1) =~= seq!['.']);
    assert(components(none) =~= Seq::<Seq<char>>::empty());
    assert(components(seq!['/']) =~= seq![seq!['/']]);
    assert(components(seq!['.']) =~= seq![seq!['.']]);
}

/// A slash at the back of a path, or one with a dot behind it, adds no component.
pub proof fn law_nothing_at_the_back(p: Seq<char>)
    requires
        p.len() > 0,
    ensures
        components(p.push('/')) == components(p),
        components(p.push('/').push('.')) == components(p),
{
    let a = p.push('/');
    let b = a.push('.');
    let rest = a.skip(lead(a));
    assert(rest.last() == '/');
    assert(text::last_index_of(rest, '/') == rest.len() - 1);
    assert(last_piece(a) =~= seq![]);
    assert(a.take(cut_point(a)) =~= p);
    lemma_drop_piece(a);
    let more = b.skip(lead(b));
    assert(more =~= rest.push('.'));
    assert(more.drop_last() =~= rest);
    assert(text::last_index_of(more, '/') == rest.len() - 1);
    assert(last_piece(b) =~= seq!['.']);
    assert(b.take(cut_point(b)) =~= p);
    lemma_drop_piece(b);
}

/// Names put together as a path are its components.
pub proof fn law_collect(names: Seq<Seq<char>>)
    requires
        forall|k: int| 0 <= k < names.len() ==> is_one_component(#[trigger] names[k]),
    ensures
        components(collect(names)) == names,
    decreases names.len(),
{
    if names.len() == 0 {
        law_first_components();
        assert(names =~= seq![]);
    } else {
        let front = names.drop_last();
        assert forall|k: int| 0 <= k < front.len() implies is_one_component(
            #[trigger] front[k],
        ) by {
            assert(front[k] == names[k]);
        }
        law_collect(front);
        assert(names[names.len() - 1] == names.last());
        law_join_adds_a_component(collect(front), names.last());
        assert(front.push(names.last()) =~= names);
    }
}

/// Every component but the first stands for itself.
proof fn lemma_later_components(p: Seq<char>, k: int)
    requires
        lead(p) <= k < components(p).len(),
    ensures
        is_one_component(components(p)[k]),
{
    let body = p.skip(lead(p));
    let pieces = text::split(body, '/');
    let keep = |s: Seq<char>| is_component(s);
    let kept = pieces.filter(keep);
    let j = k - lead(p);
    assert(components(p)[k] == kept[j]);
    text::lemma_split_pieces(body, '/');
    assert(kept.contains(kept[j]));
    pieces.lemma_filter_contains_rev(keep, kept[j]);
    pieces.lemma_filter_pred(keep, j);
    let i = choose|i: int| 0 <= i < pieces.len() && pieces[i] == kept[j];
    assert(!pieces[i].contains('/'));
}

/// A path less its first component has exactly the components behind the first, however many there
/// are; where there is only one, it stays.
pub proof fn law_below_first(p: Seq<char>)
    ensures
        components(p).len() > 1 ==> components(below_first(p)) == components(p).skip(1),
        components(p).len() <= 1 ==> below_first(p) == p,
{
    if components(p).len() > 1 {
        let rest = components(p).skip(1);
        assert forall|k: int| 0 <= k < rest.len() implies is_one_component(#[trigger] rest[k]) by {
            lemma_later_components(p, k + 1);
        }
        law_collect(rest);
    }
}

/// A path that does not end in a file name keeps its progress below it.
pub proof fn law_state_without_name(p: Seq<char>)
    requires
        file_name(p) is None,
    ensures
        state_path_of(p) == join(p, ".meta"@),
{
    assert(seq![] + ".meta"@ =~= ".meta"@);
}

/// A path ends in a file name exactly where its last component is neither the root nor one or two
/// dots, and the name is that component.
pub proof fn law_file_name(p: Seq<char>)
    ensures
        file_name(p) matches Some(name) ==> components(p).len() > 0 && name == components(p).last(),
        file_name(p) is None <==> components(p).len() == 0 || components(p).last() == seq!['/']
            || components(p).last() == seq!['.'] || components(p).last() == seq!['.', '.'],
{
}

/// What comes of joining: the name itself where it starts at the root or there is nothing before
/// it; else a text that starts with the base and ends with the name, with one slash between them.
pub proof fn law_join(base: Seq<char>, name: Seq<char>)
    ensures
        name.len() > 0 && name[0] == '/' ==> join(base, name) == name,
        base.len() == 0 ==> join(base, name) == name,
        base.len() > 0 && (name.len() == 0 || name[0] != '/') ==> {
            let p = join(base, name);
            &&& p.take(base.len() as int) == base
            &&& p.skip(p.len() - name.len()) == name
            &&& p.len() == base.len() + name.len() + if base.last() == '/' {
                0int
            } else {
                1int
            }
            &&& p[p.len() - name.len() - 1] == '/'
        },
{
    let p = join(base, name);
    if name.len() > 0 && name[0] == '/' {
    } else if base.len() == 0 {
        assert(p =~= name);
    } else {
        assert(p.take(base.len() as int) =~= base);
        assert(p.skip(p.len() - name.len()) =~= name);
    }
}

/// What is left of a path when it is tidied: a part of its front with all of its components, from
/// which no more can be taken off.
pub proof fn law_tidy(p: Seq<char>) -> (n: int)
    ensures
        0 <= n <= p.len(),
        tidy(p) == p.take(n),
        components(tidy(p)) == components(p),
        tidy(tidy(p)) == tidy(p),
    decreases p.len(),
{
    lemma_tidy_components(p);
    lemma_tidy_twice(p);
    if p.len() > lead(p) && 0 <= cut_point(p) < p.len() && !is_component(last_piece(p)) {
        let n = law_tidy(p.take(cut_point(p)));
        assert(p.take(cut_point(p)).take(n) =~= p.take(n));
        n
    } else {
        assert(p.take(p.len() as int) =~= p);
        p.len() as int
    }
}

/// A path has a parent unless it is empty or the root, and the parent has all its components but
/// the last.
pub proof fn law_parent(p: Seq<char>)
    ensures
        parent(p) is None <==> components(p).len() == 0 || components(p) == seq![seq!['/']],
        parent(p) matches Some(dir) ==> components(dir) == components(p).drop_last(),
{
    let t = tidy(p);
    lemma_tidy_components(p);
    lemma_tidy_twice(p);
    law_first_components();
    if t.len() > lead(t) {
        text::lemma_last_index_of(t.skip(lead(t)), '/');
        assert(is_component(last_piece(t))) by {
            if !is_component(last_piece(t)) {
                lemma_drop_piece(t);
                lemma_tidy_shorter(t.take(cut_point(t)));
                assert(tidy(t) == tidy(t.take(cut_point(t))));
            }
        }
        lemma_last_piece(t);
        lemma_tidy_components(t.take(cut_point(t)));
        let before = components(t.take(cut_point(t)));
        assert(before.push(last_piece(t)).drop_last() =~= before);
        if components(p) == seq![seq!['/']] {
            lemma_last_piece_has_no_slash(t);
            assert(before.push(last_piece(t)).last() == last_piece(t));
            assert(seq![seq!['/']].last() == seq!['/']);
            assert(last_piece(t)[0] == '/');
        }
    } else if lead(t) == 1 {
        assert(t =~= seq![t[0]]);
        assert(seq!['.'][0] == '.' && seq!['/'][0] == '/');
        assert(seq![seq!['.']][0] == seq!['.'] && seq![seq!['/']][0] == seq!['/']);
        assert(seq![seq!['.']].drop_last() =~= Seq::<Seq<char>>::empty());
    } else {
        assert(t =~= seq![]);
    }
}

proof fn lemma_last_piece_has_no_slash(p: Seq<char>)
    requires
        p.len() > lead(p),
    ensures
        !last_piece(p).contains('/'),
{
    let body = p.skip(lead(p));
    let i = text::last_index_of(body, '/');
    text::lemma_last_index_of(body, '/');
    if last_piece(p).contains('/') {
        let k = choose|k: int| 0 <= k < last_piece(p).len() && last_piece(p)[k] == '/';
        assert(body[i + 1 + k] == '/');
    }
}

} // verus!
