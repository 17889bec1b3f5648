//! Proxies: the lists that candidates are read from, and the pool of those that work.

use rand::seq::SliceRandom;
use std::collections::VecDeque;
use vstd::prelude::*;
use vstd::string::StringExecFns;

use crate::text;

verus! {

/// How many candidates are probed at a time.
pub const PROBE_CONC: usize = 50;

/// After how many seconds without an answer a candidate is given up.
pub const PROBE_TIMEOUT: u64 = 6;

/// How many working proxies the download of a single file asks for.
pub const SINGLE_MAX_GOOD: usize = 48;

/// How many working proxies the download of a folder asks for.
pub const FOLDER_MAX_GOOD: usize = 200;

/// With how many working proxies a download starts.
pub const MIN_PROXIES_TO_START: usize = 3;

/// With fewer proxies than this a pool is filled up again.
pub const LOW_POOL: usize = 5;

/// The line of a list names a proxy: it is neither blank nor a comment.
pub open spec fn names_proxy(line: Seq<char>) -> bool {
    text::trim(line).len() > 0 && line[0] != '#'
}

/// The address of the proxy `name`: as it is where it has a scheme, else as that of a SOCKS5
/// proxy.
pub open spec fn proxy_url(name: Seq<char>) -> Seq<char> {
    if text::begins_with(name, "socks5://"@) || text::begins_with(name, "http://"@)
        || text::begins_with(name, "https://"@) {
        name
    } else {
        "socks5://"@ + name
    }
}

/// The proxies that `lines` name, in order.
pub open spec fn proxies_in(lines: Seq<Seq<char>>) -> Seq<Seq<char>>
    decreases lines.len(),
{
    if lines.len() == 0 {
        seq![]
    } else {
        let before = proxies_in(lines.drop_last());
        if names_proxy(lines.last()) {
            before.push(proxy_url(text::trim(lines.last())))
        } else {
            before
        }
    }
}

/// The proxies that the lists `bodies` name, in order. A carriage return at the end of a line is
/// white space, and goes with the rest of it.
pub open spec fn all_proxies(bodies: Seq<Seq<char>>) -> Seq<Seq<char>>
    decreases bodies.len(),
{
    if bodies.len() == 0 {
        seq![]
    } else {
        all_proxies(bodies.drop_last()) + proxies_in(text::split(bodies.last(), '\n'))
    }
}

/// `s` less each item that equals the one before it.
pub open spec fn dedup(s: Seq<Seq<char>>) -> Seq<Seq<char>>
    decreases s.len(),
{
    if s.len() <= 1 {
        s
    } else if s.last() == s[s.len() - 2] {
        dedup(s.drop_last())
    } else {
        dedup(s.drop_last()).push(s.last())
    }
}

/// The address of the proxy `name`.
pub fn proxy_url_of(name: &str) -> (r: String)
    ensures
        r@ == proxy_url(name@),
        text::begins_with(r@, "socks5://"@) || text::begins_with(r@, "http://"@)
            || text::begins_with(r@, "https://"@),
        text::begins_with(name@, "socks5://"@) || text::begins_with(name@, "http://"@)
            || text::begins_with(name@, "https://"@) ==> r@ == name@,
        !(text::begins_with(name@, "socks5://"@) || text::begins_with(name@, "http://"@)
            || text::begins_with(name@, "https://"@)) ==> r@ == "socks5://"@ + name@,
{
    proof {
        law_proxy_url(name@);
    }
    if text::has_prefix(name, "socks5://") || text::has_prefix(name, "http://")
        || text::has_prefix(name, "https://") {
        name.to_owned()
    } else {
        let mut r: String = "socks5://".to_owned();
        r.append(name);
        r
    }
}

/// There is nothing to trim from an empty text.
proof fn lemma_trim_empty()
    ensures
        text::trim(seq![]) == Seq::<char>::empty(),
{
}

/// Adds the proxies that the list `body` names to `found`.
fn add_proxies(body: &str, found: &mut Vec<String>)
    ensures
        text::text_views(final(found)@) == text::text_views(old(found)@) + proxies_in(
            text::split(body@, '\n'),
        ),
{
    let lines = text::split_on(body, '\n');
    let ghost all = text::split(body@, '\n');
    let ghost start = text::text_views(found@);
    let mut i: usize = 0;
    assert(all.take(0) =~= seq![]);
    assert(text::text_views(found@) =~= start + proxies_in(all.take(0)));
    while i < lines.len()
        invariant
            text::views(lines@) == all,
            i <= lines.len(),
            text::text_views(found@) == start + proxies_in(all.take(i as int)),
        decreases lines.len() - i,
    {
        let line = lines[i];
        let ghost before = text::text_views(found@);
        proof {
            assert(all[i as int] == line@);
            let front = all.take(i + 1);
            assert(front.drop_last() =~= all.take(i as int));
            assert(front.last() == line@);
            lemma_trim_empty();
            reveal_strlit("#");
            assert("#"@ =~= seq!['#']);
            if line@.len() > 0 {
                assert(line@.take(1) =~= seq![line@[0]]);
                assert(seq![line@[0]][0] == line@[0] && seq!['#'][0] == '#');
            } else {
                assert(line@ =~= seq![]);
            }
        }
        let name = text::trimmed(line);
        if !name.is_empty() && !text::has_prefix(line, "#") {
            let url = proxy_url_of(name);
            found.push(url);
            assert(text::text_views(found@) =~= before.push(url@));
        }
        assert(text::text_views(found@) =~= start + proxies_in(all.take(i + 1)));
        i = i + 1;
    }
    assert(all.take(all.len() as int) =~= all);
}

/// The proxies that the lists `bodies` name, in order.
pub fn parse_proxies(bodies: &Vec<String>) -> (r: Vec<String>)
    ensures
        text::text_views(r@) == all_proxies(text::text_views(bodies@)),
{
    let mut r: Vec<String> = Vec::new();
    let ghost all = text::text_views(bodies@);
    let mut i: usize = 0;
    assert(all.take(0) =~= seq![]);
    assert(text::text_views(r@) =~= seq![]);
    while i < bodies.len()
        invariant
            all == text::text_views(bodies@),
            i <= bodies.len(),
            text::text_views(r@) == all_proxies(all.take(i as int)),
        decreases bodies.len() - i,
    {
        add_proxies(bodies[i].as_str(), &mut r);
        proof {
            let front = all.take(i + 1);
            assert(front.drop_last() =~= all.take(i as int));
            assert(front.last() == bodies@[i as int]@);
        }
        i = i + 1;
    }
    assert(all.take(all.len() as int) =~= all);
    r
}

/// Calls `shuffle` of `rand::seq::SliceRandom` with the generator of `rand::thread_rng`. Believed
/// of it: it changes the order of the items and nothing else. Which order comes out is left to
/// chance.
#[verifier::external_body]
pub(crate) fn shuffle<T>(v: &mut Vec<T>)
    ensures
        final(v)@.to_multiset() == old(v)@.to_multiset(),
{
    v.shuffle(&mut rand::thread_rng());
}

/// `v` less each item that equals the one before it.
pub fn deduped(v: &Vec<String>) -> (r: Vec<String>)
    ensures
        text::text_views(r@) == dedup(text::text_views(v@)),
{
    let mut r: Vec<String> = Vec::new();
    let ghost all = text::text_views(v@);
    let mut i: usize = 0;
    assert(all.take(0) =~= seq![]);
    assert(text::text_views(r@) =~= seq![]);
    while i < v.len()
        invariant
            all == text::text_views(v@),
            i <= v.len(),
            text::text_views(r@) == dedup(all.take(i as int)),
        decreases v.len() - i,
    {
        let ghost before = text::text_views(r@);
        proof {
            let front = all.take(i + 1);
            assert(front.drop_last() =~= all.take(i as int));
            assert(front.last() == v@[i as int]@);
            if i > 0 {
                assert(front[front.len() - 2] == v@[i - 1]@);
            } else {
                assert(front =~= seq![v@[0]@]);
            }
        }
        if i == 0 || !text::same_text(v[i].as_str(), v[i - 1].as_str()) {
            let item = v[i].clone();
            r.push(item);
            assert(text::text_views(r@) =~= before.push(item@));
            assert(i == 0 ==> before =~= seq![]);
        }
        assert(text::text_views(r@) =~= dedup(all.take(i + 1)));
        i = i + 1;
    }
    assert(all.take(all.len() as int) =~= all);
    r
}

/// Two lists with the same items have the same texts.
proof fn lemma_same_texts(a: Seq<String>, b: Seq<String>)
    requires
        a.to_multiset() == b.to_multiset(),
    ensures
        text::text_views(a).to_multiset() == text::text_views(b).to_multiset(),
    decreases a.len(),
{
    broadcast use vstd::seq_lib::group_to_multiset_ensures;

    if a.len() == 0 {
        assert(b.to_multiset().len() == 0);
        assert(text::text_views(a) =~= text::text_views(b));
    } else {
        let x = a.last();
        assert(a.to_multiset().count(x) > 0) by {
            assert(a.contains(x));
        }
        assert(b.contains(x));
        let j = choose|j: int| 0 <= j < b.len() && b[j] == x;
        let a2 = a.drop_last();
        let b2 = b.remove(j);
        assert(a2 =~= a.remove(a.len() - 1));
        assert(a2.to_multiset() =~= a.to_multiset().remove(x));
        assert(b2.to_multiset() =~= b.to_multiset().remove(x));
        lemma_same_texts(a2, b2);
        let va = text::text_views(a);
        let vb = text::text_views(b);
        assert(text::text_views(a2) =~= va.remove(a.len() - 1));
        assert(text::text_views(b2) =~= vb.remove(j));
        assert(va.remove(a.len() - 1).to_multiset() =~= va.to_multiset().remove(x@));
        assert(vb.remove(j).to_multiset() =~= vb.to_multiset().remove(x@));
        assert(va.to_multiset().count(x@) > 0) by {
            assert(va[a.len() - 1] == x@);
            assert(va.contains(x@));
        }
        assert(vb.to_multiset().count(x@) > 0) by {
            assert(vb[j] == x@);
            assert(vb.contains(x@));
        }
        assert(va.to_multiset() =~= va.to_multiset().remove(x@).insert(x@));
        assert(vb.to_multiset() =~= vb.to_multiset().remove(x@).insert(x@));
    }
}

/// `order` holds what `items` holds, in some order.
pub open spec fn is_reordering(order: Seq<Seq<char>>, items: Seq<Seq<char>>) -> bool {
    order.to_multiset() == items.to_multiset()
}

/// The candidates that the lists `bodies` name: in an order left to chance, less each that then
/// equals the one before it.
pub fn candidates(bodies: &Vec<String>) -> (r: Vec<String>)
    ensures
        exists|order: Seq<Seq<char>>| #[trigger]
            is_reordering(order, all_proxies(text::text_views(bodies@))) && text::text_views(r@)
                == dedup(order),
{
    let mut raw = parse_proxies(bodies);
    let ghost before = raw@;
    shuffle(&mut raw);
    proof {
        lemma_same_texts(raw@, before);
        assert(is_reordering(
            text::text_views(raw@),
            all_proxies(text::text_views(bodies@)),
        ));
    }
    deduped(&raw)
}

/// Leaving out what repeats the item before it loses no item, adds none, and leaves no item next
/// to its equal.
pub proof fn law_dedup(s: Seq<Seq<char>>)
    ensures
        forall|x: Seq<char>|
            #![trigger dedup(s).contains(x)]
            #![trigger s.contains(x)]
            dedup(s).contains(x) <==> s.contains(x),
        forall|i: int| 0 < i < dedup(s).len() ==> #[trigger] dedup(s)[i] != dedup(s)[i - 1],
        s.len() > 0 ==> dedup(s).len() > 0 && dedup(s).last() == s.last(),
    decreases s.len(),
{
    if s.len() > 1 {
        let front = s.drop_last();
        law_dedup(front);
        assert(front.last() == s[s.len() - 2]);
        assert forall|x: Seq<char>|
            #![trigger dedup(s).contains(x)]
            #![trigger s.contains(x)]
            dedup(s).contains(x) <==> s.contains(x) by {
            if s.contains(x) {
                let i = choose|i: int| 0 <= i < s.len() && s[i] == x;
                if i < front.len() {
                    assert(front[i] == x);
                    assert(front.contains(x));
                    let k = choose|k: int| 0 <= k < dedup(front).len() && dedup(front)[k] == x;
                    assert(dedup(s)[k] == x);
                } else {
                    assert(dedup(s)[dedup(s).len() - 1] == x);
                }
            }
            if dedup(s).contains(x) {
                let k = choose|k: int| 0 <= k < dedup(s).len() && dedup(s)[k] == x;
                if k < dedup(front).len() {
                    assert(dedup(front)[k] == x);
                    assert(dedup(front).contains(x));
                    let i = choose|i: int| 0 <= i < front.len() && front[i] == x;
                    assert(s[i] == x);
                } else {
                    assert(s[s.len() - 1] == x);
                }
            }
        }
        assert forall|i: int| 0 < i < dedup(s).len() implies #[trigger] dedup(s)[i] != dedup(
            s,
        )[i - 1] by {
            if i < dedup(front).len() {
                assert(dedup(front)[i] != dedup(front)[i - 1]);
            } else {
                assert(dedup(s)[i - 1] == dedup(front).last());
            }
        }
    }
}

/// Whatever the order that chance gives them, the candidates are the proxies that the lists name,
/// none is missing, and no two that follow one another are the same.
pub proof fn law_candidates(bodies: Seq<Seq<char>>, order: Seq<Seq<char>>)
    requires
        is_reordering(order, all_proxies(bodies)),
    ensures
        forall|x: Seq<char>|
            #![trigger dedup(order).contains(x)]
            #![trigger all_proxies(bodies).contains(x)]
            dedup(order).contains(x) <==> all_proxies(bodies).contains(x),
        forall|i: int|
            0 < i < dedup(order).len() ==> #[trigger] dedup(order)[i] != dedup(order)[i - 1],
{
    broadcast use vstd::seq_lib::group_to_multiset_ensures;

    law_dedup(order);
    let all = all_proxies(bodies);
    assert forall|x: Seq<char>|
        #![trigger dedup(order).contains(x)]
        #![trigger all.contains(x)]
        dedup(order).contains(x) <==> all.contains(x) by {
        assert(order.contains(x) <==> order.to_multiset().count(x) > 0);
        assert(all.contains(x) <==> all.to_multiset().count(x) > 0);
    }
}

/// Working proxies that no worker uses, in the order in which they are handed out.
#[derive(Debug)]
pub struct ProxyPool {
    queue: VecDeque<String>,
}

impl View for ProxyPool {
    type V = Seq<Seq<char>>;

    closed spec fn view(&self) -> Seq<Seq<char>> {
        text::text_views(self.queue@)
    }
}

impl ProxyPool {
    /// An empty pool.
    pub fn new() -> (r: Self)
        ensures
            r@ == Seq::<Seq<char>>::empty(),
    {
        let r = ProxyPool { queue: VecDeque::new() };
        assert(r@ =~= seq![]);
        r
    }

    /// How many proxies are in the pool.
    pub fn len(&self) -> (r: usize)
        ensures
            r == self@.len(),
    {
        self.queue.len()
    }

    /// Whether no proxy is in the pool.
    pub fn is_empty(&self) -> (r: bool)
        ensures
            r == (self@.len() == 0),
    {
        self.queue.len() == 0
    }

    /// Puts a proxy at the back of the pool.
    pub fn push(&mut self, proxy: String)
        ensures
            final(self)@ == old(self)@.push(proxy@),
    {
        let ghost before = self@;
        self.queue.push_back(proxy);
        assert(self@ =~= before.push(proxy@));
    }

    /// Takes all proxies out of the pool.
    pub fn drain(&mut self) -> (r: Vec<String>)
        ensures
            text::text_views(r@) == old(self)@,
            final(self)@ == Seq::<Seq<char>>::empty(),
    {
        let mut r: Vec<String> = Vec::new();
        let ghost all = self@;
        assert(text::text_views(r@) + self@ =~= all);
        loop
            invariant
                text::text_views(r@) + self@ == all,
            ensures
                text::text_views(r@) == all,
                self@ == Seq::<Seq<char>>::empty(),
            decreases self@.len(),
        {
            let ghost left = self@;
            let ghost taken = text::text_views(r@);
            match self.queue.pop_front() {
                Some(proxy) => {
                    r.push(proxy);
                    assert(self@ =~= left.skip(1));
                    assert(text::text_views(r@) =~= taken.push(proxy@));
                    assert(text::text_views(r@) + self@ =~= all);
                },
                None => {
                    assert(self@ =~= seq![]);
                    assert(text::text_views(r@) =~= all);
                    break;
                },
            }
        }
        r
    }

    /// Puts proxies at the back of the pool, in order.
    pub fn extend(&mut self, proxies: Vec<String>)
        ensures
            final(self)@ == old(self)@ + text::text_views(proxies@),
    {
        let ghost start = self@;
        let ghost all = text::text_views(proxies@);
        let mut i: usize = 0;
        assert(self@ =~= start + all.take(0));
        while i < proxies.len()
            invariant
                i <= proxies.len(),
                all == text::text_views(proxies@),
                self@ == start + all.take(i as int),
            decreases proxies.len() - i,
        {
            self.push(proxies[i].clone());
            assert(all.take(i + 1) =~= all.take(i as int).push(all[i as int]));
            assert(self@ =~= start + all.take(i + 1));
            i = i + 1;
        }
        assert(all.take(all.len() as int) =~= all);
    }

    /// Whether the pool is so low that it should be filled up again.
    pub fn is_low(&self) -> (r: bool)
        ensures
            r == (self@.len() < LOW_POOL),
            r <==> self@.len() <= 4,
    {
        self.queue.len() < LOW_POOL
    }
}

/// How the probing of candidates goes on.
#[derive(Clone, Copy, Debug)]
pub struct Probing {
    /// How many proxies the pool may hold.
    pub max_good: usize,
    /// From how many working proxies on a download may start.
    pub min_ready: usize,
    /// How many proxies were found to work.
    pub total_good: usize,
    /// Whether the download was told to start.
    pub notified: bool,
}

/// What became of a candidate that answered.
#[derive(Clone, Copy, Debug, PartialEq, Eq, Structural)]
pub enum Admission {
    /// The pool was full.
    Refused,
    /// It is in the pool. The download is to be told to start where `notify` is set.
    Admitted { notify: bool },
}

impl Probing {
    /// With how many proxies there are enough: never with none.
    pub open spec fn quota(self) -> nat {
        if self.min_ready > 0 {
            self.min_ready as nat
        } else {
            1
        }
    }

    /// The download was told to start exactly if there have been enough proxies.
    pub open spec fn is_consistent(self) -> bool {
        self.notified == (self.total_good >= self.quota())
    }

    /// Probing for a pool of `max_good` proxies, of which `min_ready` are enough to start with.
    pub fn new(max_good: usize, min_ready: usize) -> (r: Self)
        ensures
            r.max_good == max_good,
            r.min_ready == min_ready,
            r.total_good == 0,
            !r.notified,
            r.is_consistent(),
    {
        Probing { max_good, min_ready, total_good: 0, notified: false }
    }

    /// Whether another candidate should be probed: not while the pool is full.
    pub fn wants_more(&self, pool: &ProxyPool) -> (r: bool)
        ensures
            r == (pool@.len() < self.max_good),
    {
        pool.len() < self.max_good
    }

    /// Takes a candidate that answered into the pool, unless the pool has become full. The
    /// download is told to start once, with the first proxy by which there are enough.
    pub fn take_in(&mut self, pool: &mut ProxyPool, proxy: String) -> (r: Admission)
        requires
            old(self).total_good < usize::MAX,
        ensures
            final(self).max_good == old(self).max_good,
            final(self).min_ready == old(self).min_ready,
            old(pool)@.len() >= old(self).max_good ==> {
                &&& r == Admission::Refused
                &&& final(pool)@ == old(pool)@
                &&& final(self).total_good == old(self).total_good
                &&& final(self).notified == old(self).notified
            },
            old(pool)@.len() < old(self).max_good ==> {
                let enough = old(self).total_good + 1 >= old(self).min_ready;
                &&& r == (Admission::Admitted { notify: enough && !old(self).notified })
                &&& final(pool)@ == old(pool)@.push(proxy@)
                &&& final(self).total_good == old(self).total_good + 1
                &&& final(self).notified == (old(self).notified || enough)
            },
            old(pool)@.len() <= old(self).max_good ==> final(pool)@.len() <= old(self).max_good,
            old(self).is_consistent() ==> {
                &&& final(self).is_consistent()
                &&& r == (Admission::Admitted { notify: true }) <==> {
                    &&& old(pool)@.len() < old(self).max_good
                    &&& final(self).total_good == old(self).quota()
                }
            },
    {
        if pool.len() >= self.max_good {
            return Admission::Refused;
        }
        pool.push(proxy);
        self.total_good = self.total_good + 1;
        let enough: bool = self.total_good >= self.min_ready;
        let notify: bool = enough && !self.notified;
        if enough {
            self.notified = true;
        }
        Admission::Admitted { notify }
    }
}

/// A proxy has a scheme: its own where it names one, and else that of SOCKS5 in front of its name.
pub proof fn law_proxy_url(name: Seq<char>)
    ensures
        ({
            let url = proxy_url(name);
            let has_scheme = |s: Seq<char>|
                text::begins_with(s, "socks5://"@) || text::begins_with(s, "http://"@)
                    || text::begins_with(s, "https://"@);
            &&& has_scheme(url)
            &&& has_scheme(name) ==> url == name
            &&& !has_scheme(name) ==> url.len() == 9 + name.len() && url.skip(9) == name
                && text::begins_with(url, "socks5://"@)
        }),
{
    reveal_strlit("socks5://");
    let made = "socks5://"@ + name;
    assert(made.take(9) =~= "socks5://"@);
    assert(made.skip(9) =~= name);
}

/// Lists are read one after the other, and line by line: a list with a line break in it names what
/// the part before it names, and then what the part behind it names.
pub proof fn law_lists_add_up(a: Seq<Seq<char>>, b: Seq<Seq<char>>, x: Seq<char>, y: Seq<char>)
    ensures
        all_proxies(a + b) == all_proxies(a) + all_proxies(b),
        all_proxies(seq![x.push('\n') + y]) == all_proxies(seq![x]) + all_proxies(seq![y]),
        all_proxies(seq![]) == Seq::<Seq<char>>::empty(),
{
    lemma_all_proxies_pair(a, b);
    text::lemma_split_pair(x, '\n', y);
    lemma_proxies_in_pair(text::split(x, '\n'), text::split(y, '\n'));
    lemma_one_list(x);
    lemma_one_list(y);
    lemma_one_list(x.push('\n') + y);
}

/// A line names one proxy, itself without the white space around it, unless it is blank or starts
/// with a hash sign; then it names none.
pub proof fn law_one_line(line: Seq<char>)
    requires
        !line.contains('\n'),
    ensures
        (forall|i: int| 0 <= i < line.len() ==> text::is_white_space(#[trigger] line[i]))
            ==> all_proxies(seq![line]).len() == 0,
        line.len() > 0 && line[0] == '#' ==> all_proxies(seq![line]).len() == 0,
        (exists|i: int| 0 <= i < line.len() && !text::is_white_space(#[trigger] line[i]))
            && line[0] != '#' ==> all_proxies(seq![line]) == seq![proxy_url(text::trim(line))],
{
    let (a, b) = text::law_trim(line);
    let t = text::trim(line);
    lemma_one_list(line);
    text::law_split_of_one(line, '\n');
    let one = seq![line];
    let none = Seq::<Seq<char>>::empty();
    assert(one.drop_last() =~= none);
    assert(one.last() == line);
    assert(proxies_in(none) =~= none);
    assert(none.push(proxy_url(t)) =~= seq![proxy_url(t)]);
    if t.len() > 0 {
        assert(!text::is_white_space(line[a]));
    } else {
        assert(a == b);
    }
}

proof fn lemma_one_list(x: Seq<char>)
    ensures
        all_proxies(seq![x]) == proxies_in(text::split(x, '\n')),
{
    let one = seq![x];
    let none = Seq::<Seq<char>>::empty();
    assert(one.drop_last() =~= none);
    assert(all_proxies(none) =~= none);
    assert(all_proxies(one) =~= proxies_in(text::split(x, '\n')));
}

proof fn lemma_all_proxies_pair(a: Seq<Seq<char>>, b: Seq<Seq<char>>)
    ensures
        all_proxies(a + b) == all_proxies(a) + all_proxies(b),
    decreases b.len(),
{
    if b.len() == 0 {
        assert(a + b =~= a);
        assert(all_proxies(a) + all_proxies(b) =~= all_proxies(a));
    } else {
        lemma_all_proxies_pair(a, b.drop_last());
        assert((a + b).drop_last() =~= a + b.drop_last());
        assert(all_proxies(a + b) =~= all_proxies(a) + all_proxies(b));
    }
}

proof fn lemma_proxies_in_pair(a: Seq<Seq<char>>, b: Seq<Seq<char>>)
    ensures
        proxies_in(a + b) == proxies_in(a) + proxies_in(b),
    decreases b.len(),
{
    if b.len() == 0 {
        assert(a + b =~= a);
        assert(proxies_in(a) + proxies_in(b) =~= proxies_in(a));
    } else {
        lemma_proxies_in_pair(a, b.drop_last());
        assert((a + b).drop_last() =~= a + b.drop_last());
        assert(proxies_in(a + b) =~= proxies_in(a) + proxies_in(b));
    }
}

/// Repeats go run by run: a run of one item is left once, and lists whose ends differ keep what each
/// of them keeps on its own.
pub proof fn law_dedup_by_runs(a: Seq<Seq<char>>, b: Seq<Seq<char>>, x: Seq<char>, n: nat)
    ensures
        n > 0 ==> dedup(Seq::new(n, |i: int| x)) == seq![x],
        a.len() > 0 && b.len() > 0 && a.last() != b[0] ==> dedup(a + b) == dedup(a) + dedup(b),
        dedup(seq![]) == Seq::<Seq<char>>::empty(),
    decreases b.len() + n,
{
    if n > 0 {
        let run = Seq::new(n, |i: int| x);
        if n == 1 {
            assert(run =~= seq![x]);
        } else {
            law_dedup_by_runs(seq![], seq![], x, (n - 1) as nat);
            assert(run.drop_last() =~= Seq::new((n - 1) as nat, |i: int| x));
        }
    }
    if a.len() > 0 && b.len() > 0 && a.last() != b[0] {
        let s = a + b;
        let front = b.drop_last();
        assert(s.drop_last() =~= a + front);
        assert(s.last() == b.last());
        if b.len() == 1 {
            assert(a + front =~= a);
            assert(s[s.len() - 2] == a.last());
            assert(dedup(s) =~= dedup(a) + dedup(b));
        } else {
            law_dedup_by_runs(a, front, x, 0);
            assert(front[0] == b[0]);
            assert(s[s.len() - 2] == b[b.len() - 2]);
            assert(dedup(s) =~= dedup(a) + dedup(b));
        }
    }
}

} // verus!
