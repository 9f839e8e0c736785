//! Rankings of several searches brought together: which chunk stands where in which ranking, which
//! neighbours join them, and in what order the hits come.

use vstd::prelude::*;
use vstd::string::*;

use crate::context;
use crate::facts;
use crate::ranking;
use crate::ranking::Ranked;
use crate::records::{ChunkRecord, Hit, SearchHit};
use crate::search;
use crate::text;
use crate::text::Text;

verus! {

// ---------------------------------------------------------------------------------------------
// Identifiers

/// Whether numbers are distinct and ascending.
pub open spec fn ascending_ids(ids: Seq<i64>) -> bool {
    forall|i: int, j: int| 0 <= i < j < ids.len() ==> #[trigger] ids[i] < #[trigger] ids[j]
}

/// Puts a number into an ascending list, unless it is there already.
fn insert_id(ids: &mut Vec<i64>, id: i64)
    requires
        ascending_ids(old(ids)@),
    ensures
        ascending_ids(final(ids)@),
        forall|x: i64| #[trigger] final(ids)@.contains(x) <==> old(ids)@.contains(x) || x == id,
{
    let ghost before = ids@;
    let mut p: usize = 0;
    while p < ids.len() && ids[p] < id
        invariant
            ids@ == before,
            p <= ids@.len(),
            forall|k: int| 0 <= k < p ==> (#[trigger] ids@[k]) < id,
        decreases ids@.len() - p,
    {
        p += 1;
    }
    if p < ids.len() && ids[p] == id {
        assert(before.contains(before[p as int]));
        return ;
    }
    ids.insert(p, id);
    proof {
        let after = ids@;
        assert forall|i: int, j: int| 0 <= i < j < after.len() implies #[trigger] after[i]
            < #[trigger] after[j] by {
            if i < p && j > p {
                assert(before[i] < before[j - 1]);
            } else if i >= p && j > p {
                if i > p {
                    assert(before[i - 1] < before[j - 1]);
                } else if j - 1 > p {
                    assert(before[p as int] < before[j - 1]);
                }
            }
        }
        assert forall|x: i64| #[trigger] after.contains(x) <==> before.contains(x) || x == id by {
            if after.contains(x) {
                let k = choose|k: int| 0 <= k < after.len() && after[k] == x;
                if k < p {
                    assert(before[k] == x);
                } else if k > p {
                    assert(before[k - 1] == x);
                }
            }
            if before.contains(x) {
                let k = choose|k: int| 0 <= k < before.len() && before[k] == x;
                if k < p {
                    assert(after[k] == x);
                } else {
                    assert(after[k + 1] == x);
                }
            }
            assert(after[p as int] == id);
        }
    }
}

// ---------------------------------------------------------------------------------------------
// Standings

/// The searches that rank chunks.
#[derive(Clone, Copy, PartialEq, Eq, Structural)]
pub enum Source {
    FullText,
    Terms,
    Vectors,
}

/// A place in a ranking, counted from one.
#[derive(Clone, Copy)]
pub struct Placing {
    pub source: Source,
    pub rank: usize,
}

/// How a chunk stands: its places in the rankings, and whether it only joined as a neighbour.
pub struct Mark {
    pub placings: Seq<Placing>,
    pub neighbour: bool,
}

/// How a chunk stands.
pub struct Standing {
    pub chunk_id: i64,
    pub placings: Vec<Placing>,
    pub neighbour: bool,
}

impl Standing {
    pub open spec fn mark(self) -> Mark {
        Mark { placings: self.placings@, neighbour: self.neighbour }
    }
}

/// The place in the ranking of a search; the last one if there are several.
pub open spec fn last_rank(placings: Seq<Placing>, source: Source) -> Option<usize>
    decreases placings.len(),
{
    if placings.len() == 0 {
        None
    } else if placings.last().source == source {
        Some(placings.last().rank)
    } else {
        last_rank(placings.drop_last(), source)
    }
}

/// The standings of chunks after one more of them was placed.
pub open spec fn placed(board: Map<i64, Mark>, id: i64, placing: Placing) -> Map<i64, Mark> {
    let mark = if board.dom().contains(id) {
        board[id]
    } else {
        Mark { placings: Seq::empty(), neighbour: false }
    };
    board.insert(id, Mark { placings: mark.placings.push(placing), ..mark })
}

/// The standings of chunks after a ranking was counted in.
pub open spec fn with_ranking(board: Map<i64, Mark>, ids: Seq<i64>, source: Source) -> Map<i64, Mark>
    decreases ids.len(),
{
    if ids.len() == 0 {
        board
    } else {
        placed(
            with_ranking(board, ids.drop_last(), source),
            ids.last(),
            Placing { source, rank: ids.len() as usize },
        )
    }
}

/// The standings of chunks after neighbours joined that had none.
pub open spec fn with_neighbours(board: Map<i64, Mark>, ids: Seq<i64>) -> Map<i64, Mark>
    decreases ids.len(),
{
    if ids.len() == 0 {
        board
    } else {
        let before = with_neighbours(board, ids.drop_last());
        if before.dom().contains(ids.last()) {
            before
        } else {
            before.insert(ids.last(), Mark { placings: Seq::empty(), neighbour: true })
        }
    }
}

/// The standings of all chunks that a search found.
pub struct Board {
    entries: Vec<Standing>,
}

impl View for Board {
    type V = Map<i64, Mark>;

    closed spec fn view(&self) -> Map<i64, Mark> {
        Map::new(|id: i64| self.has(id), |id: i64| self.entries@[self.index_of(id)].mark())
    }
}

impl Board {
    /// The chunks are distinct and in ascending order.
    pub closed spec fn wf(self) -> bool {
        forall|i: int, j: int|
            0 <= i < j < self.entries@.len() ==> (#[trigger] self.entries@[i]).chunk_id < (
            #[trigger] self.entries@[j]).chunk_id
    }

    spec fn has(self, id: i64) -> bool {
        exists|i: int| 0 <= i < self.entries@.len() && (#[trigger] self.entries@[i]).chunk_id == id
    }

    spec fn index_of(self, id: i64) -> int {
        choose|i: int| 0 <= i < self.entries@.len() && (#[trigger] self.entries@[i]).chunk_id == id
    }

    proof fn lemma_entry(self, i: int)
        requires
            self.wf(),
            0 <= i < self.entries@.len(),
        ensures
            self@.dom().contains(self.entries@[i].chunk_id),
            self@[self.entries@[i].chunk_id] == self.entries@[i].mark(),
    {
        let id = self.entries@[i].chunk_id;
        assert(self.has(id));
        let k = self.index_of(id);
        assert(0 <= k < self.entries@.len() && self.entries@[k].chunk_id == id);
        if k < i {
            assert(self.entries@[k].chunk_id < self.entries@[i].chunk_id);
        } else if i < k {
            assert(self.entries@[i].chunk_id < self.entries@[k].chunk_id);
        }
    }

    /// No chunk was found yet.
    pub fn new() -> (r: Self)
        ensures
            r.wf(),
            r@ == Map::<i64, Mark>::empty(),
    {
        let r = Board { entries: Vec::new() };
        assert(r@ =~= Map::<i64, Mark>::empty());
        r
    }

    /// Where a chunk stands in the list, or would stand.
    fn place_of(&self, id: i64) -> (r: usize)
        requires
            self.wf(),
        ensures
            r <= self.entries@.len(),
            forall|k: int| 0 <= k < r ==> (#[trigger] self.entries@[k]).chunk_id < id,
            forall|k: int|
                r <= k < self.entries@.len() ==> (#[trigger] self.entries@[k]).chunk_id >= id,
    {
        let mut p: usize = 0;
        while p < self.entries.len() && self.entries[p].chunk_id < id
            invariant
                p <= self.entries@.len(),
                forall|k: int| 0 <= k < p ==> (#[trigger] self.entries@[k]).chunk_id < id,
            decreases self.entries@.len() - p,
        {
            p += 1;
        }
        proof {
            assert forall|k: int| p <= k < self.entries@.len() implies (
            #[trigger] self.entries@[k]).chunk_id >= id by {
                if k > p {
                    assert(self.entries@[p as int].chunk_id < self.entries@[k].chunk_id);
                }
            }
        }
        p
    }

    /// Adds a chunk that is not on the board, at its place.
    fn add_entry(&mut self, p: usize, entry: Standing)
        requires
            old(self).wf(),
            p <= old(self).entries@.len(),
            forall|k: int|
                0 <= k < p ==> (#[trigger] old(self).entries@[k]).chunk_id < entry.chunk_id,
            forall|k: int|
                p <= k < old(self).entries@.len() ==> (#[trigger] old(self).entries@[k]).chunk_id
                    > entry.chunk_id,
        ensures
            final(self).wf(),
            !old(self)@.dom().contains(entry.chunk_id),
            final(self)@ == old(self)@.insert(entry.chunk_id, entry.mark()),
    {
        let ghost before = *self;
        let ghost id = entry.chunk_id;
        let ghost mark = entry.mark();
        self.entries.insert(p, entry);
        proof {
            let a = before.entries@;
            let b = self.entries@;
            assert forall|i: int, j: int| 0 <= i < j < b.len() implies (#[trigger] b[i]).chunk_id < (
            #[trigger] b[j]).chunk_id by {
                let x = if i < p {
                    i
                } else {
                    i - 1
                };
                let y = if j < p {
                    j
                } else {
                    j - 1
                };
                if i != p && j != p {
                    assert(a[x].chunk_id < a[y].chunk_id);
                } else if i == p {
                    assert(a[y].chunk_id > id);
                } else {
                    assert(a[x].chunk_id < id);
                }
            }
            assert(!before.has(id)) by {
                if before.has(id) {
                    let k = before.index_of(id);
                    assert(a[k].chunk_id == id);
                }
            }
            assert forall|x: i64| self.has(x) <==> before.has(x) || x == id by {
                if self.has(x) {
                    let k = self.index_of(x);
                    assert(b[k].chunk_id == x);
                    if k < p {
                        assert(a[k].chunk_id == x);
                    } else if k > p {
                        assert(a[k - 1].chunk_id == x);
                    }
                }
                if before.has(x) {
                    let k = before.index_of(x);
                    assert(a[k].chunk_id == x);
                    if k < p {
                        assert(b[k].chunk_id == x);
                    } else {
                        assert(b[k + 1].chunk_id == x);
                    }
                }
                assert(b[p as int].chunk_id == id);
            }
            let wanted = before@.insert(id, mark);
            assert forall|x: i64| #[trigger] self@.dom().contains(x) implies self@[x] == wanted[x] by {
                let k = self.index_of(x);
                assert(b[k].chunk_id == x);
                self.lemma_entry(k);
                if k < p {
                    assert(a[k] == b[k]);
                    before.lemma_entry(k);
                } else if k > p {
                    assert(a[k - 1] == b[k]);
                    before.lemma_entry(k - 1);
                }
            }
            assert(self@ =~= wanted);
        }
    }

    /// Counts in a place of a chunk.
    fn place(&mut self, id: i64, placing: Placing)
        requires
            old(self).wf(),
        ensures
            final(self).wf(),
            final(self)@ == placed(old(self)@, id, placing),
    {
        let p = self.place_of(id);
        if p < self.entries.len() && self.entries[p].chunk_id == id {
            let ghost before = *self;
            proof {
                before.lemma_entry(p as int);
            }
            let mut entry = self.entries.remove(p);
            entry.placings.push(placing);
            self.entries.insert(p, entry);
            proof {
                let a = before.entries@;
                let b = self.entries@;
                assert(b =~= a.update(p as int, entry));
                assert forall|i: int, j: int| 0 <= i < j < b.len() implies (#[trigger] b[i]).chunk_id
                    < (#[trigger] b[j]).chunk_id by {
                    assert(a[i].chunk_id < a[j].chunk_id);
                }
                assert forall|x: i64| self.has(x) <==> before.has(x) by {
                    if self.has(x) {
                        let k = self.index_of(x);
                        assert(b[k].chunk_id == x);
                        assert(a[k].chunk_id == x);
                    }
                    if before.has(x) {
                        let k = before.index_of(x);
                        assert(a[k].chunk_id == x);
                        assert(b[k].chunk_id == x);
                    }
                }
                let wanted = placed(before@, id, placing);
                assert forall|x: i64| #[trigger] self@.dom().contains(x) implies self@[x]
                    == wanted[x] by {
                    let k = self.index_of(x);
                    assert(b[k].chunk_id == x);
                    self.lemma_entry(k);
                    before.lemma_entry(k);
                    if k != p {
                        assert(a[k] == b[k]);
                        if x == id {
                            before.lemma_entry(p as int);
                            if k < p {
                                assert(a[k].chunk_id < a[p as int].chunk_id);
                            } else {
                                assert(a[p as int].chunk_id < a[k].chunk_id);
                            }
                        }
                    }
                }
                assert(self@ =~= wanted);
            }
        } else {
            proof {
                assert forall|k: int| p <= k < self.entries@.len() implies (
                #[trigger] self.entries@[k]).chunk_id > id by {
                    if k > p {
                        assert(self.entries@[p as int].chunk_id < self.entries@[k].chunk_id);
                    }
                }
            }
            let mut placings: Vec<Placing> = Vec::new();
            placings.push(placing);
            assert(placings@ =~= Seq::<Placing>::empty().push(placing));
            self.add_entry(p, Standing { chunk_id: id, placings, neighbour: false });
        }
    }

    /// Counts in a ranking, the best chunk first.
    pub fn apply_ranking(&mut self, ids: &Vec<i64>, source: Source)
        requires
            old(self).wf(),
        ensures
            final(self).wf(),
            final(self)@ == with_ranking(old(self)@, ids@, source),
    {
        let ghost start = self@;
        let total = ids.len();
        assert(ids@.take(0) =~= Seq::<i64>::empty());
        for i in 0..total
            invariant
                total == ids@.len(),
                self.wf(),
                self@ == with_ranking(start, ids@.take(i as int), source),
        {
            self.place(ids[i], Placing { source, rank: i + 1 });
            proof {
                assert(ids@.take(i + 1).drop_last() =~= ids@.take(i as int));
                assert(ids@.take(i + 1).last() == ids@[i as int]);
            }
        }
        assert(ids@.take(ids@.len() as int) =~= ids@);
    }

    /// Adds chunks that stand in no ranking.
    pub fn add_neighbours(&mut self, ids: &Vec<i64>)
        requires
            old(self).wf(),
        ensures
            final(self).wf(),
            final(self)@ == with_neighbours(old(self)@, ids@),
    {
        let ghost start = self@;
        assert(ids@.take(0) =~= Seq::<i64>::empty());
        for i in 0..ids.len()
            invariant
                self.wf(),
                self@ == with_neighbours(start, ids@.take(i as int)),
        {
            let id = ids[i];
            let p = self.place_of(id);
            proof {
                assert(ids@.take(i + 1).drop_last() =~= ids@.take(i as int));
                assert(ids@.take(i + 1).last() == id);
            }
            if p < self.entries.len() && self.entries[p].chunk_id == id {
                proof {
                    self.lemma_entry(p as int);
                }
            } else {
                proof {
                    assert forall|k: int| p <= k < self.entries@.len() implies (
                    #[trigger] self.entries@[k]).chunk_id > id by {
                        if k > p {
                            assert(self.entries@[p as int].chunk_id < self.entries@[k].chunk_id);
                        }
                    }
                }
                let none: Vec<Placing> = Vec::new();
                assert(none@ =~= Seq::<Placing>::empty());
                self.add_entry(p, Standing { chunk_id: id, placings: none, neighbour: true });
            }
        }
        assert(ids@.take(ids@.len() as int) =~= ids@);
    }

    /// The standings, by ascending chunk.
    pub fn standings(&self) -> (r: &Vec<Standing>)
        requires
            self.wf(),
        ensures
            forall|i: int, j: int|
                0 <= i < j < r@.len() ==> (#[trigger] r@[i]).chunk_id < (#[trigger] r@[j]).chunk_id,
            forall|i: int|
                0 <= i < r@.len() ==> self@.dom().contains((#[trigger] r@[i]).chunk_id)
                    && self@[r@[i].chunk_id] == r@[i].mark(),
            forall|id: i64| #[trigger]
                self@.dom().contains(id) ==> exists|i: int|
                    0 <= i < r@.len() && (#[trigger] r@[i]).chunk_id == id,
    {
        proof {
            assert forall|i: int| 0 <= i < self.entries@.len() implies self@.dom().contains(
                (#[trigger] self.entries@[i]).chunk_id,
            ) && self@[self.entries@[i].chunk_id] == self.entries@[i].mark() by {
                self.lemma_entry(i);
            }
            assert forall|id: i64| #[trigger] self@.dom().contains(id) implies exists|i: int|
                0 <= i < self.entries@.len() && (#[trigger] self.entries@[i]).chunk_id == id by {
                assert(self.has(id));
            }
        }
        &self.entries
    }

    /// The chunks on the board, ascending.
    pub fn ids(&self) -> (r: Vec<i64>)
        requires
            self.wf(),
        ensures
            ascending_ids(r@),
            forall|id: i64| #[trigger] r@.contains(id) <==> self@.dom().contains(id),
    {
        let mut out: Vec<i64> = Vec::new();
        for i in 0..self.entries.len()
            invariant
                self.wf(),
                out@.len() == i,
                forall|k: int| 0 <= k < i ==> #[trigger] out@[k] == self.entries@[k].chunk_id,
        {
            out.push(self.entries[i].chunk_id);
        }
        proof {
            assert forall|i: int, j: int| 0 <= i < j < out@.len() implies #[trigger] out@[i]
                < #[trigger] out@[j] by {
                assert(self.entries@[i].chunk_id < self.entries@[j].chunk_id);
            }
            assert forall|id: i64| #[trigger] out@.contains(id) <==> self@.dom().contains(id) by {
                if out@.contains(id) {
                    let k = choose|k: int| 0 <= k < out@.len() && out@[k] == id;
                    self.lemma_entry(k);
                }
                if self@.dom().contains(id) {
                    assert(self.has(id));
                    let k = self.index_of(id);
                    assert(self.entries@[k].chunk_id == id);
                    assert(out@[k] == id);
                }
            }
        }
        out
    }
}

/// Every chunk of a ranking is on the board afterwards, and no other joins.
pub proof fn law_ranking_joins_all(board: Map<i64, Mark>, ids: Seq<i64>, source: Source, id: i64)
    ensures
        with_ranking(board, ids, source).dom().contains(id) <==> board.dom().contains(id)
            || ids.contains(id),
    decreases ids.len(),
{
    if ids.len() > 0 {
        let before = ids.drop_last();
        law_ranking_joins_all(board, before, source, id);
        if ids.contains(id) {
            let k = choose|k: int| 0 <= k < ids.len() && ids[k] == id;
            if k < before.len() {
                assert(before[k] == id);
            }
        }
        if before.contains(id) {
            let k = choose|k: int| 0 <= k < before.len() && before[k] == id;
            assert(ids[k] == id);
        }
        assert(ids[ids.len() - 1] == ids.last());
    }
}

/// A ranking of distinct chunks gives each of them its place, and leaves the others alone.
pub proof fn law_ranking_places(
    board: Map<i64, Mark>,
    ids: Seq<i64>,
    source: Source,
    id: i64,
    k: int,
)
    requires
        ids.no_duplicates(),
        ids.len() <= usize::MAX,
        0 <= k < ids.len(),
        ids[k] == id,
    ensures
        last_rank(with_ranking(board, ids, source)[id].placings, source) == Some((k + 1) as usize),
    decreases ids.len(),
{
    let before = ids.drop_last();
    if k < before.len() {
        law_ranking_places(board, before, source, id, k);
        law_ranking_joins_all(board, before, source, id);
        assert(before[k] == id);
        assert(ids.last() != id);
    } else {
        let mark = with_ranking(board, ids, source)[id];
        assert(mark.placings.last() == (Placing { source, rank: ids.len() as usize }));
    }
}

/// Neighbours change nothing in the standing of a chunk that is on the board.
pub proof fn law_neighbours_change_nothing(board: Map<i64, Mark>, ids: Seq<i64>, id: i64)
    requires
        board.dom().contains(id),
    ensures
        with_neighbours(board, ids).dom().contains(id),
        with_neighbours(board, ids)[id] == board[id],
    decreases ids.len(),
{
    if ids.len() > 0 {
        law_neighbours_change_nothing(board, ids.drop_last(), id);
    }
}

/// The place in the ranking of a search.
pub fn rank_of(placings: &Vec<Placing>, source: Source) -> (r: Option<usize>)
    ensures
        r == last_rank(placings@, source),
{
    let mut i: usize = placings.len();
    assert(placings@.take(placings@.len() as int) =~= placings@);
    while i > 0
        invariant
            i <= placings@.len(),
            last_rank(placings@, source) == last_rank(placings@.take(i as int), source),
        decreases i,
    {
        proof {
            assert(placings@.take(i as int).drop_last() =~= placings@.take(i - 1));
            assert(placings@.take(i as int).last() == placings@[i - 1]);
        }
        if placings[i - 1].source == source {
            return Some(placings[i - 1].rank);
        }
        i -= 1;
    }
    None
}

/// A place as it is shown.
pub open spec fn rank_text(rank: Option<usize>) -> Text {
    match rank {
        Some(n) => text::concat(seq!["Some("@, text::decimal(n as nat), ")"@]),
        None => "None"@,
    }
}

fn show_rank(rank: Option<usize>) -> (r: String)
    ensures
        r@ == rank_text(rank),
{
    match rank {
        Some(n) => {
            let number = text::decimal_text(n as u128);
            let parts: Vec<&str> = vec!["Some(", number.as_str(), ")"];
            assert(text::views(parts@) =~= seq!["Some("@, text::decimal(n as nat), ")"@]);
            text::concat_all(&parts)
        },
        None => text::copy_text("None"),
    }
}

/// The places of a chunk as they are shown.
pub fn describe_standing(standing: &Standing) -> (r: String)
    ensures
        r@ == text::concat(
            seq![
                "fts="@,
                rank_text(last_rank(standing.placings@, Source::FullText)),
                " ngram="@,
                rank_text(last_rank(standing.placings@, Source::Terms)),
                " vector="@,
                rank_text(last_rank(standing.placings@, Source::Vectors)),
            ],
        ),
{
    let fts = show_rank(rank_of(&standing.placings, Source::FullText));
    let ngram = show_rank(rank_of(&standing.placings, Source::Terms));
    let vector = show_rank(rank_of(&standing.placings, Source::Vectors));
    let parts: Vec<&str> = vec![
        "fts=",
        fts.as_str(),
        " ngram=",
        ngram.as_str(),
        " vector=",
        vector.as_str(),
    ];
    assert(text::views(parts@) =~= seq![
        "fts="@,
        rank_text(last_rank(standing.placings@, Source::FullText)),
        " ngram="@,
        rank_text(last_rank(standing.placings@, Source::Terms)),
        " vector="@,
        rank_text(last_rank(standing.placings@, Source::Vectors)),
    ]);
    text::concat_all(&parts)
}

// ---------------------------------------------------------------------------------------------
// Order

/// A sort key with its place in a list.
pub struct Placed {
    pub key: i64,
    pub place: usize,
}

impl View for Placed {
    type V = (int, int);

    open spec fn view(&self) -> (int, int) {
        (self.key as int, self.place as int)
    }
}

impl Ranked for Placed {
    open spec fn before(a: (int, int), b: (int, int)) -> bool {
        a.0 > b.0 || (a.0 == b.0 && a.1 < b.1)
    }

    fn ranks_before(&self, other: &Self) -> (r: bool) {
        self.key > other.key || (self.key == other.key && self.place < other.place)
    }
}

/// Whether places name every item of a list once, the greatest key first, and of equal keys the one
/// that comes first in the list.
pub open spec fn is_best_first(keys: Seq<i64>, places: Seq<usize>) -> bool {
    &&& places.len() == keys.len()
    &&& forall|i: int| 0 <= i < places.len() ==> (#[trigger] places[i]) < keys.len()
    &&& forall|i: int, j: int|
        0 <= i < j < places.len() ==> keys[#[trigger] places[i] as int]
            > keys[#[trigger] places[j] as int] || (keys[places[i] as int]
            == keys[places[j] as int] && places[i] < places[j])
}

/// The places of the items of a list, the greatest key first, and of equal keys the one that comes
/// first in the list.
pub fn best_first(keys: &Vec<i64>) -> (r: Vec<usize>)
    ensures
        is_best_first(keys@, r@),
{
    let mut items: Vec<Placed> = Vec::new();
    for i in 0..keys.len()
        invariant
            items@.len() == i,
            forall|k: int|
                0 <= k < i ==> (#[trigger] items@[k]).key == keys@[k] && items@[k].place == k,
    {
        items.push(Placed { key: keys[i], place: i });
    }
    let ghost all = ranking::views(items@);
    let sorted = ranking::sort_ranked(items);
    let ghost order = ranking::views(sorted@);
    proof {
        let before = ranking::order::<Placed>();
        assert(ranking::weakly_ordered(before));
        ranking::law_ranked(all, before);
        assert forall|k: int| 0 <= k < order.len() implies 0 <= (#[trigger] order[k]).1 < keys@.len()
            && order[k].0 == keys@[order[k].1] by {
            broadcast use vstd::seq_lib::group_to_multiset_ensures;

            assert(order.contains(order[k]));
            assert(order.to_multiset().count(order[k]) > 0);
            assert(all.contains(order[k]));
            let j = choose|j: int| 0 <= j < all.len() && all[j] == order[k];
            assert(all[j] == (keys@[j] as int, j));
        }
        assert(all.no_duplicates()) by {
            assert forall|i: int, j: int| 0 <= i < all.len() && 0 <= j < all.len() && i != j implies all[i]
                != all[j] by {
                assert(all[i].1 == i && all[j].1 == j);
            }
        }
        all.lemma_multiset_has_no_duplicates();
        assert(order.to_multiset() == all.to_multiset());
        order.lemma_multiset_has_no_duplicates_conv();
    }
    let mut out: Vec<usize> = Vec::new();
    for i in 0..sorted.len()
        invariant
            order == ranking::views(sorted@),
            out@.len() == i,
            forall|k: int| 0 <= k < i ==> #[trigger] out@[k] == order[k].1,
    {
        out.push(sorted[i].place);
    }
    proof {
        assert forall|i: int, j: int| 0 <= i < j < out@.len() implies keys@[#[trigger] out@[i] as int]
            > keys@[#[trigger] out@[j] as int] || (keys@[out@[i] as int] == keys@[out@[j] as int]
            && out@[i] < out@[j]) by {
            assert(!Placed::before(order[j], order[i]));
            assert(order[i] != order[j]);
            assert(order[i].0 == keys@[order[i].1] && order[j].0 == keys@[order[j].1]);
        }
        assert forall|i: int| 0 <= i < out@.len() implies (#[trigger] out@[i]) < keys@.len() by {
            assert(0 <= order[i].1 < keys@.len());
        }
    }
    out
}

/// How many hits of a document rank as they are; further ones rank lower.
pub const UNDIMINISHED_HITS: usize = 3;

/// How many of the items before a place are the same.
pub open spec fn earlier(ids: Seq<i64>, n: int, id: i64) -> nat
    decreases n,
{
    if n <= 0 {
        0
    } else {
        earlier(ids, n - 1, id) + if ids[n - 1] == id {
            1nat
        } else {
            0
        }
    }
}

/// Which hits rank lower because their document has enough better hits, given the documents of the
/// hits, the best first.
pub fn diminished_hits(document_ids: &Vec<i64>) -> (r: Vec<bool>)
    ensures
        r@.len() == document_ids@.len(),
        forall|i: int|
            0 <= i < r@.len() ==> #[trigger] r@[i] == (earlier(
                document_ids@,
                i,
                document_ids@[i],
            ) >= UNDIMINISHED_HITS),
{
    let mut out: Vec<bool> = Vec::new();
    for i in 0..document_ids.len()
        invariant
            out@.len() == i,
            forall|k: int|
                0 <= k < i ==> #[trigger] out@[k] == (earlier(
                    document_ids@,
                    k,
                    document_ids@[k],
                ) >= UNDIMINISHED_HITS),
    {
        let id = document_ids[i];
        let mut count: usize = 0;
        for j in 0..i
            invariant
                i < document_ids@.len(),
                count <= j,
                count == earlier(document_ids@, j as int, id),
        {
            if document_ids[j] == id {
                count += 1;
            }
        }
        out.push(count >= UNDIMINISHED_HITS);
    }
    out
}

/// How many of the hits of a document before a place rank as they are.
pub open spec fn undiminished(ids: Seq<i64>, n: int, id: i64) -> nat
    decreases n,
{
    if n <= 0 {
        0
    } else {
        undiminished(ids, n - 1, id) + if ids[n - 1] == id && earlier(ids, n - 1, id)
            < UNDIMINISHED_HITS {
            1nat
        } else {
            0
        }
    }
}

/// Of the hits of a document the first three rank as they are, or all of them if they are fewer, and
/// no others.
pub proof fn law_first_hits_undiminished(ids: Seq<i64>, n: int, id: i64)
    requires
        0 <= n <= ids.len(),
    ensures
        undiminished(ids, n, id) == if earlier(ids, n, id) < UNDIMINISHED_HITS {
            earlier(ids, n, id)
        } else {
            UNDIMINISHED_HITS as nat
        },
    decreases n,
{
    if n > 0 {
        law_first_hits_undiminished(ids, n - 1, id);
    }
}

// ---------------------------------------------------------------------------------------------
// Neighbours

/// Whether a chunk is one of the ranked ones, or stands directly before or after one in its
/// document.
pub open spec fn is_near(ranked: Seq<i64>, records: Seq<ChunkRecord>, id: i64) -> bool {
    exists|i: int| 0 <= i < ranked.len() && near_one(#[trigger] ranked[i], records, id)
}

/// Whether a chunk is a known one, or stands directly before or after it in its document.
pub open spec fn near_one(own: i64, records: Seq<ChunkRecord>, id: i64) -> bool {
    match facts::chunk_with(records, own) {
        Some(record) => id == own || record.prev_chunk_id == Some(id) || record.next_chunk_id
            == Some(id),
        None => false,
    }
}

/// The best chunks with their neighbours, ascending: of the first ranked chunks, as far as they are
/// known.
pub fn expanded_ids(ranked: &Vec<i64>, records: &Vec<ChunkRecord>, count: usize) -> (r: Vec<i64>)
    ensures
        ascending_ids(r@),
        forall|id: i64| #[trigger]
            r@.contains(id) <==> is_near(
                text::first_items(ranked@, count as nat),
                records@,
                id,
            ),
{
    let ghost first = text::first_items(ranked@, count as nat);
    let total = if count < ranked.len() {
        count
    } else {
        ranked.len()
    };
    let mut out: Vec<i64> = Vec::new();
    for i in 0..total
        invariant
            total <= ranked@.len(),
            total == first.len(),
            first == text::first_items(ranked@, count as nat),
            ascending_ids(out@),
            forall|id: i64| #[trigger]
                out@.contains(id) <==> is_near(first.take(i as int), records@, id),
    {
        let own = ranked[i];
        let ghost before = out@;
        match facts::find_chunk(records.as_slice(), own) {
            Some(record) => {
                if let Some(prev) = record.prev_chunk_id {
                    insert_id(&mut out, prev);
                }
                insert_id(&mut out, own);
                if let Some(next) = record.next_chunk_id {
                    insert_id(&mut out, next);
                }
            },
            None => {},
        }
        proof {
            let done = first.take(i as int);
            let next = first.take(i + 1);
            assert(next =~= done.push(own));
            assert forall|id: i64| #[trigger] out@.contains(id) <==> is_near(next, records@, id) by {
                assert(out@.contains(id) <==> before.contains(id) || near_one(own, records@, id));
                if is_near(done, records@, id) {
                    let k = choose|k: int|
                        0 <= k < done.len() && near_one(#[trigger] done[k], records@, id);
                    assert(next[k] == done[k]);
                }
                if is_near(next, records@, id) {
                    let k = choose|k: int|
                        0 <= k < next.len() && near_one(#[trigger] next[k], records@, id);
                    if k < done.len() {
                        assert(done[k] == next[k]);
                    }
                }
                assert(next[i as int] == own);
            }
        }
    }
    assert(first.take(first.len() as int) =~= first);
    out
}

// ---------------------------------------------------------------------------------------------
// Hits

/// The most characters of a hit's snippet.
pub const SNIPPET_CHARS: usize = 700;

/// The standings of the chunks that three searches ranked, each the best chunk first.
pub open spec fn fused(fts: Seq<i64>, ngram: Seq<i64>, vector: Seq<i64>) -> Map<i64, Mark> {
    with_ranking(
        with_ranking(
            with_ranking(Map::<i64, Mark>::empty(), fts, Source::FullText),
            ngram,
            Source::Terms,
        ),
        vector,
        Source::Vectors,
    )
}

/// The standings of the chunks that three searches ranked, each the best chunk first.
pub fn fuse_rankings(fts: &Vec<i64>, ngram: &Vec<i64>, vector: &Vec<i64>) -> (r: Board)
    ensures
        r.wf(),
        r@ == fused(fts@, ngram@, vector@),
{
    let mut board = Board::new();
    board.apply_ranking(fts, Source::FullText);
    board.apply_ranking(ngram, Source::Terms);
    board.apply_ranking(vector, Source::Vectors);
    board
}

/// What is shown of a chunk that was found.
pub open spec fn hit_of(record: ChunkRecord, terms: Seq<Text>, debug: Text) -> Hit {
    Hit {
        chunk_id: record.id,
        document_id: record.document_id,
        file_name: record.file_name@,
        path: record.path@,
        heading: record.heading_path@,
        start: record.char_start,
        end: record.char_end,
        snippet: search::snippet(record.content@, terms, SNIPPET_CHARS as nat),
        debug,
    }
}

/// What is shown of a chunk that was found.
pub fn make_hit(record: &ChunkRecord, terms: &Vec<String>, debug: String) -> (r: SearchHit)
    ensures
        r@ == hit_of(*record, text::texts(terms@), debug@),
{
    SearchHit {
        chunk_id: record.id,
        document_id: record.document_id,
        file_name: record.file_name.clone(),
        path: record.path.clone(),
        heading_path: record.heading_path.clone(),
        char_start: record.char_start,
        char_end: record.char_end,
        snippet: search::make_snippet(record.content.as_str(), terms, SNIPPET_CHARS),
        debug,
    }
}

/// The places of the best items of a list: as `best_first`, but no more than asked for.
pub fn best_places(keys: &Vec<i64>, limit: usize) -> (r: Vec<usize>)
    ensures
        exists|all: Seq<usize>| #[trigger]
            is_best_first(keys@, all) && r@ == text::first_items(all, limit as nat),
{
    let mut places = best_first(keys);
    let ghost all = places@;
    places.truncate(limit);
    assert(places@ =~= text::first_items(all, limit as nat));
    places
}

/// The places of the rows whose document is to be searched.
pub open spec fn selected_rows(document_ids: Seq<i64>, selected: Seq<i64>) -> Seq<usize>
    decreases document_ids.len(),
{
    if document_ids.len() == 0 {
        Seq::empty()
    } else {
        let before = selected_rows(document_ids.drop_last(), selected);
        if selected.contains(document_ids.last()) {
            before.push((document_ids.len() - 1) as usize)
        } else {
            before
        }
    }
}

/// The places of the rows whose document is to be searched, in order.
pub fn keep_selected(document_ids: &Vec<i64>, selected: &Vec<i64>) -> (r: Vec<usize>)
    ensures
        r@ == selected_rows(document_ids@, selected@),
        forall|i: int|
            0 <= i < r@.len() ==> (#[trigger] r@[i]) < document_ids@.len() && selected@.contains(
                document_ids@[r@[i] as int],
            ),
{
    let mut out: Vec<usize> = Vec::new();
    for i in 0..document_ids.len()
        invariant
            out@ == selected_rows(document_ids@.take(i as int), selected@),
            forall|k: int|
                0 <= k < out@.len() ==> (#[trigger] out@[k]) < i && selected@.contains(
                    document_ids@[out@[k] as int],
                ),
    {
        assert(document_ids@.take(i + 1).drop_last() =~= document_ids@.take(i as int));
        if context::has_id(selected, document_ids[i]) {
            out.push(i);
        }
    }
    assert(document_ids@.take(document_ids@.len() as int) =~= document_ids@);
    out
}

// ---------------------------------------------------------------------------------------------
// What a search hands on

proof fn lemma_other_source(
    board: Map<i64, Mark>,
    ids: Seq<i64>,
    source: Source,
    other: Source,
    id: i64,
)
    requires
        source != other,
    ensures
        with_ranking(board, ids, source).dom().contains(id) ==> last_rank(
            with_ranking(board, ids, source)[id].placings,
            other,
        ) == if board.dom().contains(id) {
            last_rank(board[id].placings, other)
        } else {
            None
        },
    decreases ids.len(),
{
    if ids.len() > 0 {
        let before = with_ranking(board, ids.drop_last(), source);
        lemma_other_source(board, ids.drop_last(), source, other, id);
        let placing = Placing { source, rank: ids.len() as usize };
        if id == ids.last() {
            let mark = if before.dom().contains(id) {
                before[id]
            } else {
                Mark { placings: Seq::empty(), neighbour: false }
            };
            let placings = with_ranking(board, ids, source)[id].placings;
            assert(placings == mark.placings.push(placing));
            assert(placings.drop_last() =~= mark.placings);
            assert(placings.last() == placing);
            assert(last_rank(placings, other) == last_rank(mark.placings, other));
            if !before.dom().contains(id) {
                law_ranking_joins_all(board, ids.drop_last(), source, id);
            }
        }
    }
}

/// Three rankings are fused without loss: a chunk stands on the board if and only if one of them ranks
/// it, and keeps the place that each of them gives it, counted from one.
pub proof fn law_fused(fts: Seq<i64>, ngram: Seq<i64>, vector: Seq<i64>, id: i64, k: int)
    requires
        fts.no_duplicates(),
        ngram.no_duplicates(),
        vector.no_duplicates(),
        fts.len() <= usize::MAX,
        ngram.len() <= usize::MAX,
        vector.len() <= usize::MAX,
    ensures
        fused(fts, ngram, vector).dom().contains(id) <==> fts.contains(id) || ngram.contains(id)
            || vector.contains(id),
        0 <= k < fts.len() && fts[k] == id ==> last_rank(
            fused(fts, ngram, vector)[id].placings,
            Source::FullText,
        ) == Some((k + 1) as usize),
        0 <= k < ngram.len() && ngram[k] == id ==> last_rank(
            fused(fts, ngram, vector)[id].placings,
            Source::Terms,
        ) == Some((k + 1) as usize),
        0 <= k < vector.len() && vector[k] == id ==> last_rank(
            fused(fts, ngram, vector)[id].placings,
            Source::Vectors,
        ) == Some((k + 1) as usize),
{
    let none = Map::<i64, Mark>::empty();
    let one = with_ranking(none, fts, Source::FullText);
    let two = with_ranking(one, ngram, Source::Terms);
    law_ranking_joins_all(none, fts, Source::FullText, id);
    law_ranking_joins_all(one, ngram, Source::Terms, id);
    law_ranking_joins_all(two, vector, Source::Vectors, id);
    if 0 <= k < fts.len() && fts[k] == id {
        assert(fts.contains(id));
        law_ranking_places(none, fts, Source::FullText, id, k);
        lemma_other_source(one, ngram, Source::Terms, Source::FullText, id);
        lemma_other_source(two, vector, Source::Vectors, Source::FullText, id);
    }
    if 0 <= k < ngram.len() && ngram[k] == id {
        assert(ngram.contains(id));
        law_ranking_places(one, ngram, Source::Terms, id, k);
        lemma_other_source(two, vector, Source::Vectors, Source::Terms, id);
    }
    if 0 <= k < vector.len() && vector[k] == id {
        law_ranking_places(two, vector, Source::Vectors, id, k);
    }
}

/// A neighbour joins the board as a neighbour, without a place in any ranking; and no one else joins.
pub proof fn law_neighbours_join(board: Map<i64, Mark>, ids: Seq<i64>, id: i64)
    ensures
        with_neighbours(board, ids).dom().contains(id) <==> board.dom().contains(id) || ids.contains(
            id,
        ),
        !board.dom().contains(id) && ids.contains(id) ==> with_neighbours(board, ids)[id].neighbour
            && with_neighbours(board, ids)[id].placings.len() == 0,
    decreases ids.len(),
{
    if ids.len() > 0 {
        let front = ids.drop_last();
        law_neighbours_join(board, front, id);
        if front.contains(id) {
            let k = choose|k: int| 0 <= k < front.len() && front[k] == id;
            assert(ids[k] == id);
        }
        if ids.contains(id) {
            let k = choose|k: int| 0 <= k < ids.len() && ids[k] == id;
            if k < front.len() {
                assert(front[k] == id);
            }
        }
    }
}

proof fn lemma_record(records: Seq<ChunkRecord>, m: int)
    requires
        0 <= m < records.len(),
        forall|a: int, b: int|
            0 <= a < b < records.len() ==> (#[trigger] records[a]).id != (#[trigger] records[b]).id,
    ensures
        facts::chunk_with(records, records[m].id) == Some(records[m]),
    decreases records.len(),
{
    if m > 0 {
        let rest = records.skip(1);
        assert(records[0].id != records[m].id);
        assert(rest[m - 1] == records[m]);
        assert forall|a: int, b: int| 0 <= a < b < rest.len() implies (#[trigger] rest[a]).id != (
        #[trigger] rest[b]).id by {
            assert(rest[a] == records[a + 1] && rest[b] == records[b + 1]);
        }
        lemma_record(rest, m - 1);
    }
}

/// A ranked chunk brings itself, the chunk before it and the chunk after it, and no other.
pub proof fn law_near_chunks(ranked: Seq<i64>, records: Seq<ChunkRecord>, i: int, m: int, id: i64)
    requires
        0 <= i < ranked.len(),
        0 <= m < records.len(),
        records[m].id == ranked[i],
        forall|a: int, b: int|
            0 <= a < b < records.len() ==> (#[trigger] records[a]).id != (#[trigger] records[b]).id,
    ensures
        id == records[m].id || records[m].prev_chunk_id == Some(id) || records[m].next_chunk_id
            == Some(id) ==> is_near(ranked, records, id),
        is_near(seq![ranked[i]], records, id) ==> id == records[m].id || records[m].prev_chunk_id
            == Some(id) || records[m].next_chunk_id == Some(id),
{
    lemma_record(records, m);
    assert(near_one(ranked[i], records, id) <==> id == records[m].id || records[m].prev_chunk_id
        == Some(id) || records[m].next_chunk_id == Some(id));
    let one = seq![ranked[i]];
    assert(one[0] == ranked[i]);
}

/// The rows that are kept are those of the selected documents, in order and each once.
pub proof fn law_selected_rows(document_ids: Seq<i64>, selected: Seq<i64>, row: int)
    requires
        0 <= row < document_ids.len() <= usize::MAX,
    ensures
        selected_rows(document_ids, selected).contains(row as usize) <==> selected.contains(
            document_ids[row],
        ),
        forall|a: int, b: int|
            0 <= a < b < selected_rows(document_ids, selected).len() ==> #[trigger] selected_rows(
                document_ids,
                selected,
            )[a] < #[trigger] selected_rows(document_ids, selected)[b],
        forall|a: int|
            0 <= a < selected_rows(document_ids, selected).len() ==> (#[trigger] selected_rows(
                document_ids,
                selected,
            )[a]) < document_ids.len(),
    decreases document_ids.len(),
{
    let front = document_ids.drop_last();
    let last = document_ids.len() - 1;
    let before = selected_rows(front, selected);
    let all = selected_rows(document_ids, selected);
    if front.len() > 0 {
        law_selected_rows(front, selected, if row < last {
            row
        } else {
            0
        });
    }
    if row < last {
        assert(front[row] == document_ids[row]);
        if before.contains(row as usize) {
            let k = choose|k: int| 0 <= k < before.len() && before[k] == row as usize;
            assert(all[k] == row as usize);
        }
        if all.contains(row as usize) {
            let k = choose|k: int| 0 <= k < all.len() && all[k] == row as usize;
            if k == before.len() {
                assert(all[k] == last as usize);
            }
            assert(before[k] == row as usize);
        }
    } else {
        if all.contains(row as usize) {
            let k = choose|k: int| 0 <= k < all.len() && all[k] == row as usize;
            if k < before.len() {
                assert(before[k] < front.len());
            }
        }
        if selected.contains(document_ids[row]) {
            assert(all[before.len() as int] == row as usize);
        }
    }
}

/// A hit repeats its chunk, and shows up to 700 characters of it.
pub proof fn law_hits_repeat_chunks(record: ChunkRecord, terms: Seq<Text>, debug: Text)
    ensures
        ({
            let hit = hit_of(record, terms, debug);
            &&& hit.chunk_id == record.id
            &&& hit.document_id == record.document_id
            &&& hit.file_name == record.file_name@
            &&& hit.path == record.path@
            &&& hit.heading == record.heading_path@
            &&& hit.start == record.char_start
            &&& hit.end == record.char_end
            &&& hit.debug == debug
            &&& record.content@.len() <= 700 ==> hit.snippet == record.content@
            &&& hit.snippet.len() <= 706
        }),
{
    search::law_snippet_length(record.content@, terms, 700);
}

/// At most three hits of a document keep their scores, and they are the first ones.
pub proof fn law_three_hits_undiminished(ids: Seq<i64>, n: int, id: i64)
    requires
        0 <= n <= ids.len(),
    ensures
        undiminished(ids, n, id) <= 3,
        earlier(ids, n, id) <= 3 ==> undiminished(ids, n, id) == earlier(ids, n, id),
        n < ids.len() && ids[n] == id ==> earlier(ids, n + 1, id) == earlier(ids, n, id) + 1,
        n < ids.len() && ids[n] != id ==> earlier(ids, n + 1, id) == earlier(ids, n, id),
{
    law_first_hits_undiminished(ids, n, id);
}

} // verus!
