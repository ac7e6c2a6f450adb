use vstd::prelude::*;
use crate::trie::NodeModel;
use crate::utils::{alpha_char, connector};

verus! {

/// A dictionary: each key with what it holds.
pub type Dict = Map<Seq<char>, NodeModel>;

/// `s` is a key of `m` with at least one reading.
pub open spec fn dict_hit(m: Dict, s: Seq<char>) -> bool {
    m.contains_key(s) && m[s].readings.len() > 0
}

/// The primary reading of `s`, if `s` is a key with a reading.
pub open spec fn primary(m: Dict, s: Seq<char>) -> Option<Seq<char>> {
    if dict_hit(m, s) {
        Some(m[s].readings[0])
    } else {
        None
    }
}

/// A run of letters and digits outside the CJK blocks, possibly joined by
/// connectors, that starts and ends with a letter or digit.
pub open spec fn alpha_run(s: Seq<char>) -> bool {
    &&& s.len() > 0
    &&& forall|k: int| 0 <= k < s.len() ==> alpha_char(#[trigger] s[k]) || connector(s[k])
    &&& alpha_char(s[0])
    &&& alpha_char(s.last())
}

/// The best way found to cover a prefix: its token count and total
/// frequency, where its last token starts, and that token's reading.
pub struct Cell {
    pub count: int,
    pub freq: int,
    pub prev: int,
    pub reading: Option<Seq<char>>,
}

/// A candidate of `count` tokens and frequency `freq` beats `cur` when it
/// has fewer tokens, or as many and a strictly greater frequency.
pub open spec fn beats(count: int, freq: int, cur: Option<Cell>) -> bool {
    match cur {
        None => true,
        Some(b) => count < b.count || (count == b.count && freq > b.freq),
    }
}

pub open spec fn offer(cur: Option<Cell>, cand: Cell) -> Option<Cell> {
    if beats(cand.count, cand.freq, cur) {
        Some(cand)
    } else {
        cur
    }
}

/// The one-character token that ends at `end`.
pub open spec fn single(m: Dict, c: Seq<char>, t: Seq<Option<Cell>>, end: int) -> Option<Cell> {
    match t[end - 1] {
        None => None,
        Some(p) => Some(
            Cell { count: p.count + 1, freq: p.freq, prev: end - 1, reading: primary(m, seq![c[end - 1]]) },
        ),
    }
}

/// `cur` after the span `c[start..end]` is offered: as a dictionary word if
/// it is one, else as an alphabetic run if it is one.
pub open spec fn relax(
    m: Dict,
    c: Seq<char>,
    t: Seq<Option<Cell>>,
    cur: Option<Cell>,
    start: int,
    end: int,
) -> Option<Cell> {
    let s = c.subrange(start, end);
    match t[start] {
        None => cur,
        Some(p) => if dict_hit(m, s) {
            offer(cur, Cell { count: p.count + 1, freq: p.freq + m[s].freq, prev: start, reading: Some(m[s].readings[0]) })
        } else if alpha_run(s) {
            offer(cur, Cell { count: p.count + 1, freq: p.freq, prev: start, reading: None })
        } else {
            cur
        },
    }
}

/// The cell for `end` once the one-character token and then the spans that
/// start at `end - 1`, `end - 2`, ..., `start` have been offered.
pub open spec fn scan(m: Dict, c: Seq<char>, t: Seq<Option<Cell>>, end: int, start: int) -> Option<
    Cell,
>
    decreases end - start,
{
    if start >= end {
        single(m, c, t, end)
    } else {
        relax(m, c, t, scan(m, c, t, end, start + 1), start, end)
    }
}

/// The cells for the prefixes of `c` of length `0..=i`.
pub open spec fn table(m: Dict, c: Seq<char>, i: nat) -> Seq<Option<Cell>>
    decreases i,
{
    if i == 0 {
        seq![Some(Cell { count: 0, freq: 0, prev: 0, reading: None })]
    } else {
        let t = table(m, c, (i - 1) as nat);
        t.push(scan(m, c, t, i as int, 0))
    }
}

/// The tokens, word and reading, that the back pointers of `t` give for
/// the prefix of length `i`.
pub open spec fn trace(c: Seq<char>, t: Seq<Option<Cell>>, i: int) -> Seq<
    (Seq<char>, Option<Seq<char>>),
>
    decreases i,
{
    if i <= 0 || i >= t.len() {
        seq![]
    } else {
        match t[i] {
            Some(cell) => if 0 <= cell.prev < i {
                trace(c, t, cell.prev).push((c.subrange(cell.prev, i), cell.reading))
            } else {
                seq![]
            },
            None => seq![],
        }
    }
}

/// The segmentation of `c` against the dictionary `m`.
pub open spec fn segmentation(m: Dict, c: Seq<char>) -> Seq<(Seq<char>, Option<Seq<char>>)> {
    trace(c, table(m, c, c.len()), c.len() as int)
}

/// The words of `ts`, concatenated.
pub open spec fn joined(ts: Seq<(Seq<char>, Option<Seq<char>>)>) -> Seq<char>
    decreases ts.len(),
{
    if ts.len() == 0 {
        seq![]
    } else {
        joined(ts.drop_last()) + ts.last().0
    }
}

pub open spec fn freqs_fit(m: Dict) -> bool {
    forall|s: Seq<char>|
        #[trigger] m.contains_key(s) ==> i64::MIN <= m[s].freq <= i64::MAX
}

pub open spec fn fits_at(o: Option<Cell>, j: int) -> bool {
    match o {
        None => false,
        Some(x) => {
            &&& 0 <= x.count <= j
            &&& (j > 0 ==> 0 <= x.prev < j)
            &&& -(x.count * 0x8000_0000_0000_0000) <= x.freq <= x.count * 0x8000_0000_0000_0000
        },
    }
}

pub open spec fn cell_fits(t: Seq<Option<Cell>>, j: int) -> bool {
    fits_at(t[j], j)
}

proof fn lemma_scan_fits(m: Dict, c: Seq<char>, t: Seq<Option<Cell>>, end: int, start: int)
    requires
        freqs_fit(m),
        1 <= end == t.len(),
        0 <= start <= end,
        forall|j: int| 0 <= j < end ==> cell_fits(t, j),
    ensures
        fits_at(scan(m, c, t, end, start), end),
    decreases end - start,
{
    assert(cell_fits(t, end - 1));
    if start < end {
        lemma_scan_fits(m, c, t, end, start + 1);
        assert(cell_fits(t, start));
    }
}

/// Every cell of the table is filled, points back to an earlier cell, and
/// its count and frequency stay within the bounds that the count gives.
pub proof fn lemma_table_fits(m: Dict, c: Seq<char>, i: nat)
    requires
        freqs_fit(m),
    ensures
        table(m, c, i).len() == i + 1,
        forall|j: int| 0 <= j <= i ==> cell_fits(table(m, c, i), j),
        forall|j: nat| j <= i ==> #[trigger] table(m, c, j) == table(m, c, i).subrange(0, j as int + 1),
    decreases i,
{
    if i > 0 {
        let t = table(m, c, (i - 1) as nat);
        lemma_table_fits(m, c, (i - 1) as nat);
        lemma_scan_fits(m, c, t, i as int, 0);
        assert forall|j: int| 0 <= j <= i implies cell_fits(table(m, c, i), j) by {
            if j < i {
                assert(table(m, c, i)[j] == t[j]);
                assert(cell_fits(t, j));
            }
        }
        assert forall|j: nat| j <= i implies #[trigger] table(m, c, j) == table(m, c, i).subrange(0, j as int + 1) by {
            if j < i {
                assert(table(m, c, j) == t.subrange(0, j as int + 1));
                assert(t.subrange(0, j as int + 1) =~= table(m, c, i).subrange(0, j as int + 1));
            } else {
                assert(table(m, c, i).subrange(0, j as int + 1) =~= table(m, c, i));
            }
        }
    }
}

/// The words that the back pointers give cover the prefix exactly.
proof fn lemma_trace_joined(c: Seq<char>, t: Seq<Option<Cell>>, i: int)
    requires
        0 <= i < t.len(),
        i <= c.len(),
        forall|j: int| 0 <= j <= i ==> cell_fits(t, j),
    ensures
        joined(trace(c, t, i)) == c.subrange(0, i),
    decreases i,
{
    if i > 0 {
        let cell = t[i]->Some_0;
        assert(cell_fits(t, i));
        lemma_trace_joined(c, t, cell.prev);
        let ts = trace(c, t, i);
        assert(ts.drop_last() == trace(c, t, cell.prev));
        assert(c.subrange(0, cell.prev) + c.subrange(cell.prev, i) =~= c.subrange(0, i));
    } else {
        assert(c.subrange(0, 0) =~= Seq::<char>::empty());
    }
}

/// Concatenating the words of a segmentation gives back the text.
pub proof fn lemma_partition(m: Dict, c: Seq<char>)
    requires
        freqs_fit(m),
    ensures
        joined(segmentation(m, c)) == c,
{
    lemma_table_fits(m, c, c.len());
    lemma_trace_joined(c, table(m, c, c.len()), c.len() as int);
    assert(c.subrange(0, c.len() as int) =~= c);
}


// ---- optimality ----

/// A piece `c[start..end]` of a partition, with what it adds to the total
/// frequency.
pub struct Piece {
    pub start: int,
    pub end: int,
    pub freq: int,
}

/// A piece the segmenter may use: one character (adding 0), a dictionary
/// word with a reading (adding its frequency), or an alphabetic run that is
/// no such word (adding 0).
pub open spec fn admissible(m: Dict, c: Seq<char>, p: Piece) -> bool {
    let s = c.subrange(p.start, p.end);
    &&& 0 <= p.start < p.end <= c.len()
    &&& {
        ||| (p.end == p.start + 1 && p.freq == 0)
        ||| (dict_hit(m, s) && p.freq == m[s].freq)
        ||| (!dict_hit(m, s) && alpha_run(s) && p.freq == 0)
    }
}

/// `ps` splits `c[0..i]` into admissible pieces, in order, without gaps.
pub open spec fn is_partition(m: Dict, c: Seq<char>, ps: Seq<Piece>, i: int) -> bool
    decreases ps.len(),
{
    if ps.len() == 0 {
        i == 0
    } else {
        &&& ps.last().end == i
        &&& admissible(m, c, ps.last())
        &&& is_partition(m, c, ps.drop_last(), ps.last().start)
    }
}

/// The total frequency of the pieces.
pub open spec fn total(ps: Seq<Piece>) -> int
    decreases ps.len(),
{
    if ps.len() == 0 {
        0
    } else {
        total(ps.drop_last()) + ps.last().freq
    }
}

/// A cell is at least as good as a cover of `count` pieces and frequency
/// `freq`: fewer pieces, or as many and no smaller frequency.
pub open spec fn no_worse(o: Option<Cell>, count: int, freq: int) -> bool {
    match o {
        None => false,
        Some(x) => x.count < count || (x.count == count && x.freq >= freq),
    }
}

/// The cell `x` for `end` comes from one admissible piece after the cell
/// where that piece starts.
pub open spec fn from_piece(m: Dict, c: Seq<char>, t: Seq<Option<Cell>>, end: int, x: Cell) -> bool {
    &&& 0 <= x.prev < end
    &&& t[x.prev] is Some
    &&& x.count == t[x.prev]->Some_0.count + 1
    &&& admissible(m, c, Piece { start: x.prev, end, freq: x.freq - t[x.prev]->Some_0.freq })
}

proof fn lemma_scan_optimal(m: Dict, c: Seq<char>, t: Seq<Option<Cell>>, end: int, start: int)
    requires
        1 <= end == t.len(),
        end <= c.len(),
        0 <= start <= end,
        forall|j: int| 0 <= j < end ==> t[j] is Some,
    ensures
        no_worse(scan(m, c, t, end, start), t[end - 1]->Some_0.count + 1, t[end - 1]->Some_0.freq),
        forall|a: int, f: int|
            start <= a < end && #[trigger] admissible(m, c, Piece { start: a, end, freq: f })
                ==> no_worse(scan(m, c, t, end, start), t[a]->Some_0.count + 1, t[a]->Some_0.freq + f),
        scan(m, c, t, end, start) is Some,
        from_piece(m, c, t, end, scan(m, c, t, end, start)->Some_0),
    decreases end - start,
{
    if start < end {
        lemma_scan_optimal(m, c, t, end, start + 1);
        let cur = scan(m, c, t, end, start + 1);
        let r = scan(m, c, t, end, start);
        let s = c.subrange(start, end);
        assert(r == relax(m, c, t, cur, start, end));
        assert forall|a: int, f: int|
            start <= a < end && #[trigger] admissible(m, c, Piece { start: a, end, freq: f })
                implies no_worse(r, t[a]->Some_0.count + 1, t[a]->Some_0.freq + f) by {
            if a > start {
                assert(no_worse(cur, t[a]->Some_0.count + 1, t[a]->Some_0.freq + f));
            } else if !dict_hit(m, s) && !alpha_run(s) {
                assert(a == end - 1);
            }
        }
    } else {
        let x = scan(m, c, t, end, start)->Some_0;
        assert(c.subrange(end - 1, end) == seq![c[end - 1]]);
    }
}

/// Every cell of the table is at least as good as every partition of its
/// prefix, and comes from an admissible piece.
proof fn lemma_table_optimal(m: Dict, c: Seq<char>, n: nat, ps: Seq<Piece>, i: int)
    requires
        freqs_fit(m),
        n <= c.len(),
        0 <= i <= n,
        is_partition(m, c, ps, i),
    ensures
        no_worse(table(m, c, n)[i], ps.len() as int, total(ps)),
    decreases ps.len(),
{
    lemma_table_fits(m, c, n);
    let full = table(m, c, n);
    if ps.len() == 0 {
        assert(table(m, c, 0) == full.subrange(0, 1));
    } else {
        let last = ps.last();
        let a = last.start;
        lemma_table_optimal(m, c, n, ps.drop_last(), a);
        let t = table(m, c, (i - 1) as nat);
        assert(table(m, c, i as nat) == full.subrange(0, i + 1));
        assert(t == full.subrange(0, i));
        assert forall|j: int| 0 <= j < i implies t[j] is Some by {
            assert(cell_fits(full, j));
        }
        lemma_scan_optimal(m, c, t, i, 0);
        assert(admissible(m, c, Piece { start: a, end: i, freq: last.freq }));
        assert(t[a] == full[a]);
    }
}

proof fn lemma_table_origin(m: Dict, c: Seq<char>, n: nat, i: int)
    requires
        freqs_fit(m),
        n <= c.len(),
        0 < i <= n,
    ensures
        from_piece(m, c, table(m, c, n), i, table(m, c, n)[i]->Some_0),
{
    lemma_table_fits(m, c, n);
    let full = table(m, c, n);
    let t = table(m, c, (i - 1) as nat);
    assert(table(m, c, i as nat) == full.subrange(0, i + 1));
    assert(t == full.subrange(0, i));
    assert forall|j: int| 0 <= j < i implies t[j] is Some by {
        assert(cell_fits(full, j));
    }
    lemma_scan_optimal(m, c, t, i, 0);
}

/// The pieces that the back pointers of `t` give for the prefix of length `i`.
pub open spec fn trace_pieces(t: Seq<Option<Cell>>, i: int) -> Seq<Piece>
    decreases i,
{
    if i <= 0 || i >= t.len() {
        seq![]
    } else {
        match t[i] {
            Some(x) => if 0 <= x.prev < i && t[x.prev] is Some {
                trace_pieces(t, x.prev).push(
                    Piece { start: x.prev, end: i, freq: x.freq - t[x.prev]->Some_0.freq },
                )
            } else {
                seq![]
            },
            None => seq![],
        }
    }
}

/// The partition that the segmentation of `c` follows.
pub open spec fn best_pieces(m: Dict, c: Seq<char>) -> Seq<Piece> {
    trace_pieces(table(m, c, c.len()), c.len() as int)
}

proof fn lemma_trace_pieces(m: Dict, c: Seq<char>, i: int)
    requires
        freqs_fit(m),
        0 <= i <= c.len(),
    ensures
        is_partition(m, c, trace_pieces(table(m, c, c.len()), i), i),
        trace_pieces(table(m, c, c.len()), i).len() == table(m, c, c.len())[i]->Some_0.count,
        total(trace_pieces(table(m, c, c.len()), i)) == table(m, c, c.len())[i]->Some_0.freq,
        trace(c, table(m, c, c.len()), i).len() == trace_pieces(table(m, c, c.len()), i).len(),
        forall|k: int|
            0 <= k < trace(c, table(m, c, c.len()), i).len() ==> #[trigger] trace(
                c,
                table(m, c, c.len()),
                i,
            )[k].0 == c.subrange(
                trace_pieces(table(m, c, c.len()), i)[k].start,
                trace_pieces(table(m, c, c.len()), i)[k].end,
            ),
    decreases i,
{
    lemma_table_fits(m, c, c.len());
    let t = table(m, c, c.len());
    if i == 0 {
        assert(t[0] == table(m, c, 0)[0]) by {
            assert(table(m, c, 0) == t.subrange(0, 1));
        }
    } else {
        lemma_table_origin(m, c, c.len(), i);
        let x = t[i]->Some_0;
        assert(cell_fits(t, i));
        assert(cell_fits(t, x.prev));
        lemma_trace_pieces(m, c, x.prev);
        assert(trace_pieces(t, i) == trace_pieces(t, x.prev).push(
            Piece { start: x.prev, end: i, freq: x.freq - t[x.prev]->Some_0.freq },
        ));
        assert(trace(c, t, i) == trace(c, t, x.prev).push((c.subrange(x.prev, i), x.reading)));
        let ps = trace_pieces(t, i);
        assert(ps.drop_last() =~= trace_pieces(t, x.prev));
        let tr = trace(c, t, i);
        assert(tr.drop_last() =~= trace(c, t, x.prev));
        assert forall|k: int| 0 <= k < tr.len() implies #[trigger] tr[k].0 == c.subrange(ps[k].start, ps[k].end) by {
            if k < tr.len() - 1 {
                assert(tr[k] == trace(c, t, x.prev)[k]);
                assert(ps[k] == trace_pieces(t, x.prev)[k]);
            }
        }
    }
}

/// The segmentation follows a partition of the text into admissible
/// pieces, one piece per token, each token's word being its piece.
pub proof fn lemma_segmentation_is_partition(m: Dict, c: Seq<char>)
    requires
        freqs_fit(m),
    ensures
        is_partition(m, c, best_pieces(m, c), c.len() as int),
        best_pieces(m, c).len() == segmentation(m, c).len(),
        forall|k: int|
            0 <= k < segmentation(m, c).len() ==> #[trigger] segmentation(m, c)[k].0 == c.subrange(
                best_pieces(m, c)[k].start,
                best_pieces(m, c)[k].end,
            ),
{
    lemma_trace_pieces(m, c, c.len() as int);
}

/// No partition of the text into admissible pieces has fewer pieces than
/// the segmentation has tokens.
pub proof fn lemma_minimal(m: Dict, c: Seq<char>, ps: Seq<Piece>)
    requires
        freqs_fit(m),
        is_partition(m, c, ps, c.len() as int),
    ensures
        segmentation(m, c).len() <= ps.len(),
{
    lemma_trace_pieces(m, c, c.len() as int);
    lemma_table_optimal(m, c, c.len(), ps, c.len() as int);
}

/// Among partitions with as many pieces as the segmentation has tokens,
/// none has a greater total frequency than the one the segmentation follows.
pub proof fn lemma_best_frequency(m: Dict, c: Seq<char>, ps: Seq<Piece>)
    requires
        freqs_fit(m),
        is_partition(m, c, ps, c.len() as int),
        ps.len() == segmentation(m, c).len(),
    ensures
        total(ps) <= total(best_pieces(m, c)),
{
    lemma_trace_pieces(m, c, c.len() as int);
    lemma_table_optimal(m, c, c.len(), ps, c.len() as int);
}

} // verus!
