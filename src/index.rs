use vstd::prelude::*;
use vstd::utf8::{decode_utf8, valid_utf8};

use crate::corpus::{ids_of, strictly_ascending, Corpus};
use crate::extract::{extract_participants, participants, texts};
use crate::order::{
    bytes_less, lemma_name_lt_irreflexive, lemma_name_lt_total, lemma_name_lt_transitive, name_lt,
};

verus! {

/// The stored bytes decode as UTF-8 and the quote names `n`.
pub open spec fn quote_names(bytes: Seq<u8>, n: Seq<char>) -> bool {
    valid_utf8(bytes) && participants(decode_utf8(bytes)).contains(n)
}

/// The ids of the quotes that name `n`, in the order of `quotes`.
pub open spec fn appearances(quotes: Seq<(u32, Seq<u8>)>, n: Seq<char>) -> Seq<u32>
    decreases quotes.len(),
{
    if quotes.len() == 0 {
        seq![]
    } else {
        let before = appearances(quotes.drop_last(), n);
        if quote_names(quotes.last().1, n) {
            before.push(quotes.last().0)
        } else {
            before
        }
    }
}

/// For each name, the ids of the quotes of `quotes` that name it.
pub open spec fn appearances_of(quotes: Seq<(u32, Seq<u8>)>) -> spec_fn(Seq<char>) -> Seq<u32> {
    |n: Seq<char>| appearances(quotes, n)
}

/// One participant and the ids of the quotes that name them, ascending.
pub struct Participant {
    pub name: String,
    pub quotes: Vec<u32>,
}

/// A participant as its name and its ids.
pub open spec fn participant_view(p: Participant) -> (Seq<char>, Seq<u32>) {
    (p.name@, p.quotes@)
}

/// Names and id lists of a sequence of participants.
pub open spec fn listing(ps: Seq<Participant>) -> Seq<(Seq<char>, Seq<u32>)> {
    ps.map_values(|p: Participant| participant_view(p))
}

/// Names ascend strictly, so no name is listed twice.
pub open spec fn sorted_by_name(l: Seq<(Seq<char>, Seq<u32>)>) -> bool {
    forall|i: int, j: int| 0 <= i < j < l.len() ==> name_lt(l[i].0, l[j].0)
}

/// `l` lists exactly the names to which `f` gives a non-empty sequence, each
/// with that sequence.
pub open spec fn lists(l: Seq<(Seq<char>, Seq<u32>)>, f: spec_fn(Seq<char>) -> Seq<u32>) -> bool {
    &&& forall|i: int| 0 <= i < l.len() ==> (#[trigger] l[i]).1 == f(l[i].0) && l[i].1.len() > 0
    &&& forall|n: Seq<char>|
        (#[trigger] f(n)).len() > 0 ==> exists|i: int| 0 <= i < l.len() && (#[trigger] l[i]).0 == n
}

/// `f` after quote `id` is recorded for `name`: the id is appended to the
/// name's sequence unless it already ends it.
spec fn recorded(f: spec_fn(Seq<char>) -> Seq<u32>, name: Seq<char>, id: u32) -> spec_fn(
    Seq<char>,
) -> Seq<u32> {
    |n: Seq<char>|
        if n == name && !(f(n).len() > 0 && f(n).last() == id) {
            f(n).push(id)
        } else {
            f(n)
        }
}

/// Every participant named in a corpus, ascending by name, each with the ids
/// of the quotes that name them in ascending order.
pub struct ParticipantIndex {
    participants: Vec<Participant>,
}

impl View for ParticipantIndex {
    type V = Seq<(Seq<char>, Seq<u32>)>;

    closed spec fn view(&self) -> Seq<(Seq<char>, Seq<u32>)> {
        listing(self.participants@)
    }
}

proof fn lemma_lists_ext(
    l: Seq<(Seq<char>, Seq<u32>)>,
    f: spec_fn(Seq<char>) -> Seq<u32>,
    g: spec_fn(Seq<char>) -> Seq<u32>,
)
    requires
        lists(l, f),
        forall|n: Seq<char>| #[trigger] f(n) == g(n),
    ensures
        lists(l, g),
{
    assert forall|n: Seq<char>| (#[trigger] g(n)).len() > 0 implies exists|i: int|
        0 <= i < l.len() && (#[trigger] l[i]).0 == n by {
        assert(f(n).len() > 0);
    }
}

proof fn lemma_appearances_below(quotes: Seq<(u32, Seq<u8>)>, n: Seq<char>, bound: u32)
    requires
        forall|j: int| 0 <= j < quotes.len() ==> (#[trigger] quotes[j]).0 < bound,
    ensures
        forall|i: int|
            0 <= i < appearances(quotes, n).len() ==> #[trigger] appearances(quotes, n)[i] < bound,
    decreases quotes.len(),
{
    if quotes.len() > 0 {
        let q = quotes.drop_last();
        assert forall|j: int| 0 <= j < q.len() implies (#[trigger] q[j]).0 < bound by {
            assert(q[j] == quotes[j]);
        }
        lemma_appearances_below(q, n, bound);
        assert(quotes.last() == quotes[quotes.len() - 1]);
        let a = appearances(quotes, n);
        let b = appearances(q, n);
        assert forall|i: int| 0 <= i < a.len() implies #[trigger] a[i] < bound by {
            if i < b.len() {
                assert(a[i] == b[i]);
            }
        }
    }
}

/// Where `name` stands among names listed ascending: `Ok` with its index when
/// it is there, else `Err` with the index it would be inserted at.
fn position(ps: &Vec<Participant>, name: &str) -> (r: Result<usize, usize>)
    requires
        sorted_by_name(listing(ps@)),
    ensures
        r matches Ok(i) ==> i < ps@.len() && ps@[i as int].name@ == name@,
        r matches Err(p) ==> p <= ps@.len() && (forall|k: int|
            0 <= k < p ==> name_lt(ps@[k].name@, name@))
            && (forall|k: int| p <= k < ps@.len() ==> name_lt(name@, ps@[k].name@)),
{
    let ghost l = listing(ps@);
    let nb = name.as_bytes();
    let mut lo: usize = 0;
    let mut hi: usize = ps.len();
    while lo < hi
        invariant
            lo <= hi <= ps@.len(),
            l == listing(ps@),
            sorted_by_name(l),
            nb@ == vstd::utf8::encode_utf8(name@),
            forall|k: int| 0 <= k < lo ==> name_lt(ps@[k].name@, name@),
            forall|k: int| hi <= k < ps@.len() ==> name_lt(name@, ps@[k].name@),
        decreases hi - lo,
    {
        let mid = lo + (hi - lo) / 2;
        let mb = ps[mid].name.as_str().as_bytes();
        assert(l[mid as int].0 == ps@[mid as int].name@);
        if bytes_less(mb, nb) {
            assert forall|k: int| 0 <= k < mid + 1 implies name_lt(ps@[k].name@, name@) by {
                if k < mid {
                    assert(l[k].0 == ps@[k].name@);
                    lemma_name_lt_transitive(ps@[k].name@, ps@[mid as int].name@, name@);
                }
            }
            lo = mid + 1;
        } else if bytes_less(nb, mb) {
            assert forall|k: int| mid <= k < ps@.len() implies name_lt(name@, ps@[k].name@) by {
                if k > mid {
                    assert(l[k].0 == ps@[k].name@);
                    lemma_name_lt_transitive(name@, ps@[mid as int].name@, ps@[k].name@);
                }
            }
            hi = mid;
        } else {
            proof {
                if ps@[mid as int].name@ != name@ {
                    lemma_name_lt_total(ps@[mid as int].name@, name@);
                }
            }
            return Ok(mid);
        }
    }
    Err(lo)
}

/// Records that quote `id` names `name`.
fn record(
    ps: &mut Vec<Participant>,
    name: String,
    id: u32,
    Ghost(f): Ghost<spec_fn(Seq<char>) -> Seq<u32>>,
)
    requires
        sorted_by_name(listing(old(ps)@)),
        lists(listing(old(ps)@), f),
    ensures
        sorted_by_name(listing(final(ps)@)),
        lists(listing(final(ps)@), recorded(f, name@, id)),
{
    let ghost g = recorded(f, name@, id);
    let ghost before = listing(ps@);
    match position(ps, name.as_str()) {
        Ok(i) => {
            assert(before[i as int] == participant_view(ps@[i as int]));
            let last = ps[i].quotes.len() - 1;
            if ps[i].quotes[last] != id {
                ps[i].quotes.push(id);
            }
            let ghost after = listing(ps@);
            assert forall|k: int| 0 <= k < after.len() implies (#[trigger] after[k]).1 == g(after[k].0)
                && after[k].1.len() > 0 by {
                assert(before[k] == participant_view(old(ps)@[k]));
                if k != i {
                    assert(after[k] == before[k]);
                    if before[k].0 == name@ {
                        lemma_name_lt_irreflexive(name@);
                        if k < i {
                            assert(name_lt(before[k].0, before[i as int].0));
                        } else {
                            assert(name_lt(before[i as int].0, before[k].0));
                        }
                    }
                }
            }
            assert forall|n: Seq<char>| (#[trigger] g(n)).len() > 0 implies exists|k: int|
                0 <= k < after.len() && (#[trigger] after[k]).0 == n by {
                if n == name@ {
                    assert(after[i as int].0 == n);
                } else {
                    assert(f(n).len() > 0);
                    let k = choose|k: int| 0 <= k < before.len() && (#[trigger] before[k]).0 == n;
                    assert(after[k] == before[k]);
                }
            }
            assert(sorted_by_name(after)) by {
                assert forall|a: int, b: int| 0 <= a < b < after.len() implies name_lt(
                    after[a].0,
                    after[b].0,
                ) by {
                    assert(after[a].0 == before[a].0);
                    assert(after[b].0 == before[b].0);
                }
            }
        },
        Err(p) => {
            let ghost nm = name@;
            assert(f(nm).len() == 0) by {
                if f(nm).len() > 0 {
                    let k = choose|k: int| 0 <= k < before.len() && (#[trigger] before[k]).0 == nm;
                    assert(before[k] == participant_view(ps@[k]));
                    lemma_name_lt_irreflexive(nm);
                }
            }
            let mut quotes: Vec<u32> = Vec::new();
            quotes.push(id);
            ps.insert(p, Participant { name, quotes });
            let ghost after = listing(ps@);
            assert(after[p as int] == (nm, seq![id]));
            assert(g(nm) =~= seq![id]);
            assert forall|k: int| 0 <= k < after.len() implies (#[trigger] after[k]).1 == g(after[k].0)
                && after[k].1.len() > 0 by {
                if k < p {
                    assert(after[k] == before[k]);
                    assert(before[k] == participant_view(old(ps)@[k]));
                    if before[k].0 == nm {
                        lemma_name_lt_irreflexive(nm);
                    }
                } else if k > p {
                    assert(after[k] == before[k - 1]);
                    assert(before[k - 1] == participant_view(old(ps)@[k - 1]));
                    if before[k - 1].0 == nm {
                        lemma_name_lt_irreflexive(nm);
                    }
                }
            }
            assert forall|n: Seq<char>| (#[trigger] g(n)).len() > 0 implies exists|k: int|
                0 <= k < after.len() && (#[trigger] after[k]).0 == n by {
                if n == nm {
                    assert(after[p as int].0 == n);
                } else {
                    assert(f(n).len() > 0);
                    let k = choose|k: int| 0 <= k < before.len() && (#[trigger] before[k]).0 == n;
                    if k < p {
                        assert(after[k] == before[k]);
                    } else {
                        assert(after[k + 1] == before[k]);
                    }
                }
            }
            assert(sorted_by_name(after)) by {
                assert forall|a: int, b: int| 0 <= a < b < after.len() implies name_lt(
                    after[a].0,
                    after[b].0,
                ) by {
                    if a < p {
                        assert(after[a] == before[a]);
                        assert(before[a] == participant_view(old(ps)@[a]));
                    } else if a > p {
                        assert(after[a] == before[a - 1]);
                    }
                    if b < p {
                        assert(after[b] == before[b]);
                    } else if b > p {
                        assert(after[b] == before[b - 1]);
                        assert(before[b - 1] == participant_view(old(ps)@[b - 1]));
                    }
                }
            }
        },
    }
}

/// What the index holds for `n` part way through quote `id`: the ids of the
/// earlier quotes that name `n`, then `id` if one of the quote's first names is `n`.
spec fn partial(
    earlier: Seq<(u32, Seq<u8>)>,
    names: Seq<Seq<char>>,
    id: u32,
) -> spec_fn(Seq<char>) -> Seq<u32> {
    |n: Seq<char>|
        if names.contains(n) {
            appearances(earlier, n).push(id)
        } else {
            appearances(earlier, n)
        }
}

impl ParticipantIndex {
    /// Names ascend strictly.
    pub open spec fn wf(&self) -> bool {
        sorted_by_name(self@)
    }


    /// Number of participants.
    pub fn len(&self) -> (r: usize)
        ensures
            r == self@.len(),
    {
        self.participants.len()
    }

    /// All participants, ascending by name.
    pub fn list_participants(&self) -> (r: &Vec<Participant>)
        ensures
            listing(r@) == self@,
    {
        &self.participants
    }

    /// The ids of the quotes that name `name`, ascending; `None` for a name
    /// that no quote names.
    pub fn get_participant(&self, name: &str) -> (r: Option<&Vec<u32>>)
        requires
            self.wf(),
        ensures
            r is None <==> forall|i: int| 0 <= i < self@.len() ==> (#[trigger] self@[i]).0 != name@,
            r matches Some(v) ==> exists|i: int|
                0 <= i < self@.len() && #[trigger] self@[i] == (name@, v@),
    {
        match position(&self.participants, name) {
            Ok(i) => {
                assert(self@[i as int] == participant_view(self.participants@[i as int]));
                Some(&self.participants[i].quotes)
            },
            Err(p) => {
                assert forall|i: int| 0 <= i < self@.len() implies (#[trigger] self@[i]).0 != name@ by {
                    assert(self@[i] == participant_view(self.participants@[i]));
                    lemma_name_lt_irreflexive(name@);
                }
                None
            },
        }
    }
}

proof fn lemma_listings_agree_upto(
    a: Seq<(Seq<char>, Seq<u32>)>,
    b: Seq<(Seq<char>, Seq<u32>)>,
    f: spec_fn(Seq<char>) -> Seq<u32>,
    i: int,
)
    requires
        sorted_by_name(a),
        sorted_by_name(b),
        lists(a, f),
        lists(b, f),
        0 <= i <= a.len(),
        i <= b.len(),
    ensures
        forall|j: int| 0 <= j < i ==> a[j] == b[j],
    decreases i,
{
    if i > 0 {
        lemma_listings_agree_upto(a, b, f, i - 1);
        let t = i - 1;
        let x = a[t].0;
        assert(f(x).len() > 0);
        let p = choose|p: int| 0 <= p < b.len() && (#[trigger] b[p]).0 == x;
        lemma_name_lt_irreflexive(x);
        if p < t {
            assert(a[p] == b[p]);
            assert(name_lt(a[p].0, a[t].0));
        } else if p > t {
            let y = b[t].0;
            assert(f(y).len() > 0);
            let q = choose|q: int| 0 <= q < a.len() && (#[trigger] a[q]).0 == y;
            if q < t {
                assert(a[q] == b[q]);
                assert(name_lt(b[q].0, b[t].0));
                lemma_name_lt_irreflexive(y);
            } else if q == t {
                assert(name_lt(b[t].0, b[p].0));
            } else {
                assert(name_lt(a[t].0, a[q].0));
                assert(name_lt(b[t].0, b[p].0));
                lemma_name_lt_transitive(x, y, x);
            }
        }
        assert(b[t].0 == x);
        assert(a[t].1 == f(x) && b[t].1 == f(x));
    }
}

/// Two listings, each ascending by name, of the same participants agree.
proof fn lemma_listing_unique(
    a: Seq<(Seq<char>, Seq<u32>)>,
    b: Seq<(Seq<char>, Seq<u32>)>,
    f: spec_fn(Seq<char>) -> Seq<u32>,
)
    requires
        sorted_by_name(a),
        sorted_by_name(b),
        lists(a, f),
        lists(b, f),
    ensures
        a == b,
{
    if a.len() > b.len() {
        lemma_listings_agree_upto(a, b, f, b.len() as int);
        let x = a[b.len() as int].0;
        assert(f(x).len() > 0);
        let p = choose|p: int| 0 <= p < b.len() && (#[trigger] b[p]).0 == x;
        assert(a[p] == b[p]);
        assert(name_lt(a[p].0, x));
        lemma_name_lt_irreflexive(x);
    } else if b.len() > a.len() {
        lemma_listings_agree_upto(b, a, f, a.len() as int);
        let x = b[a.len() as int].0;
        assert(f(x).len() > 0);
        let p = choose|p: int| 0 <= p < a.len() && (#[trigger] a[p]).0 == x;
        assert(a[p] == b[p]);
        assert(name_lt(b[p].0, x));
        lemma_name_lt_irreflexive(x);
    } else {
        lemma_listings_agree_upto(a, b, f, a.len() as int);
        assert(a =~= b);
    }
}

/// Building the index twice from the same corpus gives the same result: the
/// same participants, in the same order, with the same ids.
pub proof fn lemma_build_deterministic(c: &Corpus, x: &ParticipantIndex, y: &ParticipantIndex)
    requires
        c.wf(),
        x.wf(),
        y.wf(),
        lists(x@, appearances_of(c@)),
        lists(y@, appearances_of(c@)),
    ensures
        x@ == y@,
{
    lemma_listing_unique(x@, y@, appearances_of(c@));
}

proof fn lemma_appearances_ascend(quotes: Seq<(u32, Seq<u8>)>, n: Seq<char>)
    requires
        strictly_ascending(ids_of(quotes)),
    ensures
        strictly_ascending(appearances(quotes, n)),
    decreases quotes.len(),
{
    if quotes.len() > 0 {
        let q = quotes.drop_last();
        assert(ids_of(q) =~= ids_of(quotes).drop_last());
        lemma_appearances_ascend(q, n);
        let last = quotes.len() - 1;
        assert forall|j: int| 0 <= j < q.len() implies (#[trigger] q[j]).0 < quotes.last().0 by {
            assert(ids_of(quotes)[j] < ids_of(quotes)[last]);
        }
        lemma_appearances_below(q, n, quotes.last().0);
    }
}

/// In the index of a corpus, each participant's ids ascend strictly: a quote
/// that names someone on several lines is listed for them once.
pub proof fn lemma_index_ids_ascend(c: &Corpus, x: &ParticipantIndex)
    requires
        c.wf(),
        lists(x@, appearances_of(c@)),
    ensures
        forall|i: int| 0 <= i < x@.len() ==> strictly_ascending(#[trigger] x@[i].1),
{
    assert forall|i: int| 0 <= i < x@.len() implies strictly_ascending(#[trigger] x@[i].1) by {
        lemma_appearances_ascend(c@, x@[i].0);
    }
}

/// Scans every quote of the corpus in ascending id order and lists, for
/// each participant it names, the ids of the quotes naming them. Quotes
/// that are not valid UTF-8 are skipped.
pub fn index_participants(corpus: &Corpus) -> (r: ParticipantIndex)
    requires
        corpus.wf(),
    ensures
        r.wf(),
        lists(r@, appearances_of(corpus@)),
{
    let mut ps: Vec<Participant> = Vec::new();
    let n = corpus.len();
    let mut k: usize = 0;
    while k < n
        invariant
            k <= n == corpus@.len(),
            corpus.wf(),
            sorted_by_name(listing(ps@)),
            lists(listing(ps@), appearances_of(corpus@.subrange(0, k as int))),
        decreases n - k,
    {
        let id = corpus.id_at(k);
        let ghost earlier = corpus@.subrange(0, k as int);
        let ghost upto = corpus@.subrange(0, k + 1);
        let ghost bytes = corpus@[k as int].1;
        proof {
            assert(ids_of(corpus@)[k as int] == corpus@[k as int].0);
            assert(upto.drop_last() =~= earlier);
            assert(upto.last() == corpus@[k as int]);
            assert forall|j: int| 0 <= j < earlier.len() implies (#[trigger] earlier[j]).0 < id by {
                assert(ids_of(corpus@)[j] == earlier[j].0);
            }
        }
        match corpus.get_quote(id) {
            Ok(text) => {
                assert(valid_utf8(bytes) && text@ == decode_utf8(bytes));
                let names = extract_participants(text);
                let ghost all = texts(names@);
                let mut j: usize = 0;
                proof {
                    lemma_lists_ext(
                        listing(ps@),
                        appearances_of(earlier),
                        partial(earlier, all.subrange(0, 0), id),
                    );
                }
                while j < names.len()
                    invariant
                        j <= names@.len() == all.len(),
                        all == texts(names@),
                        forall|x: int| 0 <= x < earlier.len() ==> (#[trigger] earlier[x]).0 < id,
                        sorted_by_name(listing(ps@)),
                        lists(listing(ps@), partial(earlier, all.subrange(0, j as int), id)),
                    decreases names@.len() - j,
                {
                    let name = names[j].clone();
                    let ghost f = partial(earlier, all.subrange(0, j as int), id);
                    let ghost h = partial(earlier, all.subrange(0, j + 1), id);
                    record(&mut ps, name, id, Ghost(f));
                    proof {
                        let nm = all[j as int];
                        assert(name@ == nm);
                        assert forall|m: Seq<char>| #[trigger] recorded(f, nm, id)(m) == h(m) by {
                            let a = appearances(earlier, m);
                            lemma_appearances_below(earlier, m, id);
                            assert(all.subrange(0, j + 1) =~= all.subrange(0, j as int).push(nm));
                            if m == nm {
                                if !all.subrange(0, j as int).contains(m) && a.len() > 0 {
                                    assert(a.last() < id);
                                }
                                assert(all.subrange(0, j + 1)[j as int] == m);
                            } else {
                                if all.subrange(0, j + 1).contains(m) {
                                    let x = choose|x: int|
                                        0 <= x < j + 1 && #[trigger] all.subrange(0, j + 1)[x] == m;
                                    assert(all.subrange(0, j as int)[x] == m);
                                }
                            }
                        }
                        lemma_lists_ext(listing(ps@), recorded(f, nm, id), h);
                    }
                    j = j + 1;
                }
                proof {
                    assert(all.subrange(0, j as int) =~= participants(decode_utf8(bytes)));
                    assert forall|m: Seq<char>|
                        #[trigger] partial(earlier, all.subrange(0, j as int), id)(m)
                            == appearances_of(upto)(m) by {
                        assert(quote_names(bytes, m) == participants(decode_utf8(bytes)).contains(m));
                    }
                    lemma_lists_ext(
                        listing(ps@),
                        partial(earlier, all.subrange(0, j as int), id),
                        appearances_of(upto),
                    );
                }
            },
            Err(_) => {
                proof {
                    assert(!valid_utf8(bytes));
                    assert forall|m: Seq<char>|
                        #[trigger] appearances_of(earlier)(m) == appearances_of(upto)(m) by {
                        assert(!quote_names(bytes, m));
                    }
                    lemma_lists_ext(listing(ps@), appearances_of(earlier), appearances_of(upto));
                }
            },
        }
        k = k + 1;
    }
    assert(corpus@.subrange(0, n as int) =~= corpus@);
    ParticipantIndex { participants: ps }
}

} // verus!
