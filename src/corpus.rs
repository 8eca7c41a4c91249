use vstd::prelude::*;
use vstd::utf8::{decode_utf8, valid_utf8};

use crate::navigation::Bounds;
use crate::text::{file_name_id, id_from_file_name};

verus! {

/// One stored quote: its id and its raw bytes, which should be UTF-8.
pub struct Quote {
    pub id: u32,
    pub contents: Vec<u8>,
}

/// Why a set of stored files does not make a corpus.
#[derive(Clone, Copy, Debug, PartialEq, Eq, Structural)]
pub enum CorpusError {
    /// A file name is not a decimal id followed by `.txt`.
    UnparsableName,
    /// Two file names stand for the same id.
    DuplicateId,
}

/// Why a quote cannot be handed out.
#[derive(Clone, Copy, Debug, PartialEq, Eq, Structural)]
pub enum QuoteError {
    /// No quote has this id.
    NotFound,
    /// The quote exists but its bytes are not valid UTF-8.
    InvalidEncoding,
}

/// The ids of a sequence of stored quotes, in order.
pub open spec fn ids_of(quotes: Seq<(u32, Seq<u8>)>) -> Seq<u32> {
    quotes.map_values(|q: (u32, Seq<u8>)| q.0)
}

pub open spec fn strictly_ascending(ids: Seq<u32>) -> bool {
    forall|i: int, j: int| 0 <= i < j < ids.len() ==> ids[i] < ids[j]
}

/// The id that the `i`-th stored file stands for.
pub open spec fn file_id(files: Seq<(String, Vec<u8>)>, i: int) -> Option<u32> {
    file_name_id(files[i].0@)
}

/// Every stored file name stands for an id.
pub open spec fn all_names_parse(files: Seq<(String, Vec<u8>)>) -> bool {
    forall|i: int| 0 <= i < files.len() ==> (#[trigger] file_id(files, i)) is Some
}

/// Two stored files stand for the same id.
pub open spec fn has_duplicate_id(files: Seq<(String, Vec<u8>)>) -> bool {
    exists|i: int, j: int|
        0 <= i < j < files.len() && #[trigger] file_id(files, i) == #[trigger] file_id(files, j)
}

/// Stored quotes as ids and bytes.
pub open spec fn stored_view(quotes: Seq<Quote>) -> Seq<(u32, Seq<u8>)> {
    quotes.map_values(|q: Quote| (q.id, q.contents@))
}

/// The whole set of quotes, held ascending by id; loaded once, then only read.
pub struct Corpus {
    quotes: Vec<Quote>,
}

impl View for Corpus {
    /// Each quote as its id and its bytes, ascending by id.
    type V = Seq<(u32, Seq<u8>)>;

    closed spec fn view(&self) -> Seq<(u32, Seq<u8>)> {
        stored_view(self.quotes@)
    }
}

/// Where `id` stands among ids in ascending order: `Ok` with its index when it
/// is there, else `Err` with the index it would be inserted at.
fn search(quotes: &Vec<Quote>, id: u32) -> (r: Result<usize, usize>)
    requires
        forall|i: int, j: int| 0 <= i < j < quotes@.len() ==> quotes@[i].id < quotes@[j].id,
    ensures
        r matches Ok(i) ==> i < quotes@.len() && quotes@[i as int].id == id,
        r matches Err(p) ==> p <= quotes@.len()
            && (forall|k: int| 0 <= k < p ==> quotes@[k].id < id)
            && (forall|k: int| p <= k < quotes@.len() ==> quotes@[k].id > id),
{
    let mut lo: usize = 0;
    let mut hi: usize = quotes.len();
    while lo < hi
        invariant
            lo <= hi <= quotes@.len(),
            forall|i: int, j: int| 0 <= i < j < quotes@.len() ==> quotes@[i].id < quotes@[j].id,
            forall|k: int| 0 <= k < lo ==> quotes@[k].id < id,
            forall|k: int| hi <= k < quotes@.len() ==> quotes@[k].id > id,
        decreases hi - lo,
    {
        let mid = lo + (hi - lo) / 2;
        let m = quotes[mid].id;
        if m == id {
            return Ok(mid);
        } else if m < id {
            lo = mid + 1;
        } else {
            hi = mid;
        }
    }
    Err(lo)
}

/// The lowest id, or zero when there is none.
pub open spec fn min_id(ids: Seq<u32>) -> u32 {
    if ids.len() > 0 {
        ids[0]
    } else {
        0
    }
}

/// The highest id, or zero when there is none.
pub open spec fn max_id(ids: Seq<u32>) -> u32 {
    if ids.len() > 0 {
        ids.last()
    } else {
        0
    }
}

/// Relies on std::str::from_utf8: it accepts exactly the valid UTF-8 byte
/// sequences, and the text it returns is what those bytes encode.
#[verifier::external_body]
fn utf8_text(bytes: &[u8]) -> (r: Option<&str>)
    ensures
        r is Some <==> valid_utf8(bytes@),
        r matches Some(s) ==> s@ == decode_utf8(bytes@),
{
    std::str::from_utf8(bytes).ok()
}

/// Relies on rand::random_range: a number drawn from `0..len`, which must not
/// be empty.
#[verifier::external_body]
fn random_index(len: usize) -> (r: usize)
    requires
        len > 0,
    ensures
        r < len,
{
    rand::random_range(0..len)
}

impl Corpus {
    /// Ids ascend strictly, so each id names one quote.
    pub open spec fn wf(&self) -> bool {
        strictly_ascending(ids_of(self@))
    }

    proof fn lemma_view(&self)
        ensures
            self@.len() == self.quotes@.len(),
            ids_of(self@).len() == self@.len(),
            forall|i: int|
                0 <= i < self@.len() ==> #[trigger] self@[i] == (
                    self.quotes@[i].id,
                    self.quotes@[i].contents@,
                ),
            forall|i: int| 0 <= i < self@.len() ==> #[trigger] ids_of(self@)[i] == self.quotes@[i].id,
            self.wf() ==> forall|i: int, j: int|
                0 <= i < j < self.quotes@.len() ==> self.quotes@[i].id < self.quotes@[j].id,
    {
        if self.wf() {
            assert forall|i: int, j: int| 0 <= i < j < self.quotes@.len() implies self.quotes@[i].id
                < self.quotes@[j].id by {
                assert(ids_of(self@)[i] < ids_of(self@)[j]);
            }
        }
    }

    /// Number of quotes.
    pub fn len(&self) -> (r: usize)
        ensures
            r == self@.len(),
    {
        self.quotes.len()
    }

    /// All quote ids, ascending.
    pub fn list_ids(&self) -> (r: Vec<u32>)
        ensures
            r@ == ids_of(self@),
    {
        let mut out: Vec<u32> = Vec::new();
        let mut i: usize = 0;
        while i < self.quotes.len()
            invariant
                i <= self.quotes@.len(),
                out@ == ids_of(self@).subrange(0, i as int),
            decreases self.quotes@.len() - i,
        {
            out.push(self.quotes[i].id);
            i = i + 1;
            assert(out@ =~= ids_of(self@).subrange(0, i as int));
        }
        assert(out@ =~= ids_of(self@));
        out
    }

    /// The lowest and highest id (zero for both when the corpus is empty).
    pub fn get_bounds(&self) -> (r: Bounds)
        ensures
            r.min == min_id(ids_of(self@)),
            r.max == max_id(ids_of(self@)),
    {
        let n = self.quotes.len();
        if n == 0 {
            Bounds { min: 0, max: 0 }
        } else {
            Bounds { min: self.quotes[0].id, max: self.quotes[n - 1].id }
        }
    }

    /// The id of the quote at `index` in ascending order.
    pub fn id_at(&self, index: usize) -> (r: u32)
        requires
            index < self@.len(),
        ensures
            r == ids_of(self@)[index as int],
    {
        self.quotes[index].id
    }

    /// Some id of the corpus, drawn at random; zero when the corpus is empty.
    pub fn get_random_id(&self) -> (r: u32)
        ensures
            self@.len() == 0 ==> r == 0,
            self@.len() > 0 ==> ids_of(self@).contains(r),
    {
        let n = self.quotes.len();
        if n == 0 {
            0
        } else {
            let i = random_index(n);
            let r = self.id_at(i);
            assert(ids_of(self@)[i as int] == r);
            r
        }
    }

    /// The text of quote `id`.
    pub fn get_quote(&self, id: u32) -> (r: Result<&str, QuoteError>)
        requires
            self.wf(),
        ensures
            r == Err::<&str, QuoteError>(QuoteError::NotFound) <==> !ids_of(self@).contains(id),
            forall|i: int|
                0 <= i < self@.len() && #[trigger] self@[i].0 == id ==> match r {
                    Ok(s) => valid_utf8(self@[i].1) && s@ == decode_utf8(self@[i].1),
                    Err(e) => e == QuoteError::InvalidEncoding && !valid_utf8(self@[i].1),
                },
    {
        proof {
            self.lemma_view();
        }
        match search(&self.quotes, id) {
            Ok(i) => {
                assert(ids_of(self@)[i as int] == id);
                assert forall|k: int| 0 <= k < self@.len() && #[trigger] self@[k].0 == id implies k
                    == i by {
                    if k < i {
                        assert(self.quotes@[k].id < self.quotes@[i as int].id);
                    } else if k > i {
                        assert(self.quotes@[i as int].id < self.quotes@[k].id);
                    }
                }
                match utf8_text(self.quotes[i].contents.as_slice()) {
                    Some(s) => Ok(s),
                    None => Err(QuoteError::InvalidEncoding),
                }
            },
            Err(p) => {
                assert forall|i: int| 0 <= i < ids_of(self@).len() implies ids_of(self@)[i] != id by {
                    assert(ids_of(self@)[i] == self.quotes@[i].id);
                }
                Err(QuoteError::NotFound)
            },
        }
    }
}

/// Every corpus lists its ids ascending without repeats, and each listed id
/// lies between the corpus's lowest and highest id.
pub proof fn lemma_listed_ids_within_bounds(c: &Corpus)
    requires
        c.wf(),
    ensures
        strictly_ascending(ids_of(c@)),
        forall|i: int|
            0 <= i < ids_of(c@).len() ==> min_id(ids_of(c@)) <= #[trigger] ids_of(c@)[i] <= max_id(
                ids_of(c@),
            ),
{
    let ids = ids_of(c@);
    assert forall|i: int| 0 <= i < ids.len() implies min_id(ids) <= #[trigger] ids[i] <= max_id(ids) by {
        if i > 0 {
            assert(ids[0] < ids[i]);
        }
        if i < ids.len() - 1 {
            assert(ids[i] < ids[ids.len() - 1]);
        }
    }
}

/// Builds the corpus from stored files, each a name such as `42.txt` and
/// its bytes. Every name must stand for an id, and no two for the same one.
pub fn index_quoteentries(files: &Vec<(String, Vec<u8>)>) -> (r: Result<Corpus, CorpusError>)
    ensures
        r == Err::<Corpus, CorpusError>(CorpusError::UnparsableName) <==> !all_names_parse(files@),
        r == Err::<Corpus, CorpusError>(CorpusError::DuplicateId) <==> all_names_parse(files@)
            && has_duplicate_id(files@),
        r matches Ok(c) ==> {
            &&& c.wf()
            &&& c@.len() == files@.len()
            &&& forall|i: int| 0 <= i < files@.len() ==> c@.contains(
                (file_id(files@, i)->0, #[trigger] files@[i].1@),
            )
        },
{
    let n = files.len();
    let mut ids: Vec<u32> = Vec::new();
    let mut i: usize = 0;
    while i < n
        invariant
            i <= n == files@.len(),
            ids@.len() == i,
            forall|k: int| 0 <= k < i ==> file_id(files@, k) == Some(#[trigger] ids@[k]),
        decreases n - i,
    {
        match id_from_file_name(files[i].0.as_str()) {
            Some(id) => ids.push(id),
            None => {
                assert(file_id(files@, i as int) is None);
                return Err(CorpusError::UnparsableName);
            },
        }
        i = i + 1;
    }
    assert forall|k: int| 0 <= k < n implies (#[trigger] file_id(files@, k)) is Some by {
        assert(file_id(files@, k) == Some(ids@[k]));
    }
    let mut quotes: Vec<Quote> = Vec::new();
    let mut i: usize = 0;
    while i < n
        invariant
            i <= n == files@.len() == ids@.len(),
            all_names_parse(files@),
            forall|k: int| 0 <= k < n ==> file_id(files@, k) == Some(#[trigger] ids@[k]),
            quotes@.len() == i,
            forall|a: int, b: int| 0 <= a < b < quotes@.len() ==> quotes@[a].id < quotes@[b].id,
            forall|a: int, b: int| 0 <= a < b < i ==> ids@[a] != ids@[b],
            forall|j: int| 0 <= j < i ==> ids@.subrange(0, i as int).contains(#[trigger] quotes@[j].id),
            forall|k: int|
                0 <= k < i ==> stored_view(quotes@).contains((#[trigger] ids@[k], files@[k].1@)),
        decreases n - i,
    {
        let id = ids[i];
        match search(&quotes, id) {
            Ok(j) => {
                proof {
                    let k = choose|k: int|
                        0 <= k < i && ids@.subrange(0, i as int)[k] == quotes@[j as int].id;
                    assert(ids@[k] == ids@[i as int]);
                    assert(file_id(files@, k) == file_id(files@, i as int));
                }
                return Err(CorpusError::DuplicateId);
            },
            Err(p) => {
                let contents = files[i].1.clone();
                assert(contents@ =~= files@[i as int].1@);
                let ghost before = quotes@;
                quotes.insert(p, Quote { id, contents });
                assert forall|j: int| 0 <= j < i + 1 implies ids@.subrange(0, i + 1).contains(
                    #[trigger] quotes@[j].id,
                ) by {
                    let q = quotes@[j].id;
                    if j < p {
                        assert(quotes@[j] == before[j]);
                        let k = choose|k: int| 0 <= k < i && ids@.subrange(0, i as int)[k] == q;
                        assert(ids@.subrange(0, i + 1)[k] == q);
                    } else if j > p {
                        assert(quotes@[j] == before[j - 1]);
                        let k = choose|k: int| 0 <= k < i && ids@.subrange(0, i as int)[k] == q;
                        assert(ids@.subrange(0, i + 1)[k] == q);
                    } else {
                        assert(ids@.subrange(0, i + 1)[i as int] == q);
                    }
                }
                assert forall|k: int| 0 <= k < i + 1 implies stored_view(quotes@).contains(
                    (#[trigger] ids@[k], files@[k].1@),
                ) by {
                    if k < i {
                        let j0 = choose|j: int|
                            0 <= j < i && stored_view(before)[j] == (ids@[k], files@[k].1@);
                        if j0 < p {
                            assert(quotes@[j0] == before[j0]);
                            assert(stored_view(quotes@)[j0] == (ids@[k], files@[k].1@));
                        } else {
                            assert(quotes@[j0 + 1] == before[j0]);
                            assert(stored_view(quotes@)[j0 + 1] == (ids@[k], files@[k].1@));
                        }
                    } else {
                        assert(stored_view(quotes@)[p as int] == (ids@[k], files@[k].1@));
                    }
                }
            },
        }
        i = i + 1;
    }
    let c = Corpus { quotes };
    proof {
        if has_duplicate_id(files@) {
            let (a, b) = choose|a: int, b: int|
                0 <= a < b < files@.len() && #[trigger] file_id(files@, a) == #[trigger] file_id(
                    files@,
                    b,
                );
            assert(ids@[a] == ids@[b]);
        }
        assert forall|k: int| 0 <= k < files@.len() implies c@.contains(
            (file_id(files@, k)->0, #[trigger] files@[k].1@),
        ) by {
            assert(stored_view(c.quotes@).contains((ids@[k], files@[k].1@)));
        }
    }
    Ok(c)
}

} // verus!
