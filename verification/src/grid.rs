//! The scrollback buffer of one terminal session, with a read cursor per agent.
use vstd::prelude::*;
use vstd::hash_map::StringHashMap;
use vstd::utf8::{decode_utf8, valid_utf8};
use vstd::math::{max, min};
use crate::text::{count_newline_bytes, count_newlines, lemma_utf8_newlines, lemma_decode_concat, lemma_split_count, ends_in_escape, lemma_clean_concat, merge_lines, all_ascii, ascii_chars, lemma_ascii_utf8, esc, lemma_clean_plain, lemma_split_join, clean_lines, decimal, decode_lossy, join_lines, push_decimal, push_joined, split_clean_lines, split_lines, utf8_lossy};

verus! {

/// The most lines a grid keeps; older lines are dropped first.
pub const MAX_HISTORY: usize = 100_000;

/// The number of lines a read returns when the caller names no limit.
pub const DEFAULT_READ_LIMIT: usize = 100;

/// `c - o`, or 0 where `o` exceeds `c`.
pub open spec fn saturating_minus(c: usize, o: int) -> usize {
    if c >= o {
        (c - o) as usize
    } else {
        0
    }
}

/// The read position of each agent, keyed by agent id.
pub struct CursorTable {
    positions: StringHashMap<usize>,
    agents: Vec<String>,
}

impl View for CursorTable {
    type V = Map<Seq<char>, usize>;

    closed spec fn view(&self) -> Map<Seq<char>, usize> {
        self.positions@
    }
}

impl CursorTable {
    /// The table is well formed: `agents` lists each key of `positions` exactly once.
    pub closed spec fn wf(&self) -> bool {
        &&& forall|k: Seq<char>| #[trigger]
            self.positions@.contains_key(k) <==> exists|i: int|
                0 <= i < self.agents@.len() && #[trigger] self.agents@[i]@ == k
        &&& forall|i: int, j: int|
            0 <= i < j < self.agents@.len() ==> #[trigger] self.agents@[i]@
                != #[trigger] self.agents@[j]@
    }

    /// An empty table.
    pub fn new() -> (t: Self)
        ensures
            t.wf(),
            t@ == Map::<Seq<char>, usize>::empty(),
    {
        CursorTable { positions: StringHashMap::new(), agents: Vec::new() }
    }

    /// The position of `agent`, if it has one.
    pub fn get(&self, agent: &str) -> (p: Option<usize>)
        ensures
            p == self@.get(agent@),
    {
        match self.positions.get(agent) {
            Some(v) => Some(*v),
            None => None,
        }
    }

    /// Sets the position of `agent` to `pos`.
    pub fn set(&mut self, agent: &str, pos: usize)
        requires
            old(self).wf(),
        ensures
            final(self).wf(),
            final(self)@ == old(self)@.insert(agent@, pos),
    {
        let known = self.positions.contains_key(agent);
        self.positions.insert(String::from_str(agent), pos);
        if !known {
            let ghost before = self.agents@;
            self.agents.push(String::from_str(agent));
            proof {
                assert(self.agents@[before.len() as int]@ == agent@);
                assert forall|k: Seq<char>| #[trigger]
                    self.positions@.contains_key(k) implies exists|i: int|
                        0 <= i < self.agents@.len() && #[trigger] self.agents@[i]@ == k by {
                    if k != agent@ {
                        let i = choose|i: int| 0 <= i < before.len() && #[trigger] before[i]@ == k;
                        assert(self.agents@[i] == before[i]);
                    }
                }
                assert forall|k: Seq<char>|
                    (exists|i: int| 0 <= i < self.agents@.len() && #[trigger] self.agents@[i]@ == k)
                    implies #[trigger] self.positions@.contains_key(k) by {
                    let i = choose|i: int| 0 <= i < self.agents@.len() && #[trigger] self.agents@[i]@ == k;
                    if i < before.len() {
                        assert(before[i] == self.agents@[i]);
                    }
                }
                assert forall|i: int, j: int|
                    0 <= i < j < self.agents@.len() implies #[trigger] self.agents@[i]@
                        != #[trigger] self.agents@[j]@ by {
                    if j < before.len() {
                        assert(before[i] == self.agents@[i] && before[j] == self.agents@[j]);
                    } else {
                        assert(before[i] == self.agents@[i]);
                        assert(old(self).positions@.contains_key(before[i]@));
                    }
                }
            }
        }
    }

    /// Moves every position `amount` lines back, stopping at 0.
    pub fn shift_back(&mut self, amount: usize)
        requires
            old(self).wf(),
        ensures
            final(self).wf(),
            final(self)@ == old(self)@.map_values(|c: usize| saturating_minus(c, amount as int)),
    {
        let ghost start = self.positions@;
        let n = self.agents.len();
        let mut i: usize = 0;
        while i < n
            invariant
                n == self.agents@.len(),
                i <= n,
                self.wf(),
                self.positions@.dom() == start.dom(),
                forall|j: int|
                    0 <= j < i ==> self.positions@[#[trigger] self.agents@[j]@] == saturating_minus(
                        start[self.agents@[j]@],
                        amount as int,
                    ),
                forall|j: int|
                    i <= j < n ==> self.positions@[#[trigger] self.agents@[j]@] == start[self.agents@[j]@],
            decreases n - i,
        {
            let agent = self.agents[i].clone();
            let ghost a = agent@;
            assert(self.positions@.contains_key(a));
            let cur = match self.positions.get(agent.as_str()) {
                Some(v) => *v,
                None => 0,
            };
            let next = cur.saturating_sub(amount);
            let ghost before = self.positions@;
            self.positions.insert(agent, next);
            proof {
                assert forall|j: int| 0 <= j < n && j != i implies #[trigger] self.agents@[j]@ != a by {
                    if j < i {
                        assert(self.agents@[j]@ != self.agents@[i as int]@);
                    } else {
                        assert(self.agents@[i as int]@ != self.agents@[j]@);
                    }
                }
                assert(self.positions@.dom() =~= before.dom());
            }
            i = i + 1;
        }
        proof {
            let target = start.map_values(|c: usize| saturating_minus(c, amount as int));
            assert forall|k: Seq<char>| #[trigger] self.positions@.contains_key(k) implies self.positions@[k]
                == target[k] by {
                let j = choose|j: int| 0 <= j < self.agents@.len() && #[trigger] self.agents@[j]@ == k;
            }
            assert(self.positions@ =~= target);
        }
    }
}

/// What a grid holds: its lines, each agent's read cursor, and its line limit.
pub struct GridView {
    pub lines: Seq<Seq<char>>,
    pub cursors: Map<Seq<char>, usize>,
    pub max_history: nat,
}

/// The grid after the raw output `bytes` came in: the grid after their decoded text.
pub open spec fn after_ingest(g: GridView, bytes: Seq<u8>) -> GridView {
    after_ingest_text(g, utf8_lossy(bytes))
}

/// The grid after the text `text` came in: it is split at newlines, each piece
/// cleaned of escapes, the first piece continues the last line, and, past the
/// line limit, the oldest lines are dropped and every cursor moves back by as
/// many lines (stopping at 0).
pub open spec fn after_ingest_text(g: GridView, text: Seq<char>) -> GridView {
    let merged = merge_lines(g.lines, clean_lines(text));
    if merged.len() > g.max_history {
        let overflow = merged.len() - g.max_history;
        GridView {
            lines: merged.subrange(overflow, merged.len() as int),
            cursors: g.cursors.map_values(|c: usize| saturating_minus(c, overflow)),
            max_history: g.max_history,
        }
    } else {
        GridView { lines: merged, cursors: g.cursors, max_history: g.max_history }
    }
}

/// The number of lines a read returns at most.
pub open spec fn read_limit(max_lines: Option<usize>) -> int {
    match max_lines {
        Some(m) => m as int,
        None => DEFAULT_READ_LIMIT as int,
    }
}

/// Where a read asks to start: the given line; else the agent's cursor; else,
/// for an agent that has none, the last `limit` lines.
pub open spec fn requested_start(
    g: GridView,
    agent: Seq<char>,
    start_line: Option<usize>,
    max_lines: Option<usize>,
) -> int {
    match start_line {
        Some(s) => s as int,
        None => if g.cursors.contains_key(agent) {
            g.cursors[agent] as int
        } else if g.lines.len() >= read_limit(max_lines) {
            g.lines.len() - read_limit(max_lines)
        } else {
            0
        },
    }
}

/// The first line a read returns: the requested start, at most the line count.
pub open spec fn read_first(
    g: GridView,
    agent: Seq<char>,
    start_line: Option<usize>,
    max_lines: Option<usize>,
) -> int {
    let s = requested_start(g, agent, start_line, max_lines);
    if s <= g.lines.len() {
        s
    } else {
        g.lines.len() as int
    }
}

/// One past the last line a read returns.
pub open spec fn read_end(
    g: GridView,
    agent: Seq<char>,
    start_line: Option<usize>,
    max_lines: Option<usize>,
) -> int {
    let e = read_first(g, agent, start_line, max_lines) + read_limit(max_lines);
    if e <= g.lines.len() {
        e
    } else {
        g.lines.len() as int
    }
}

/// The text a read returns.
pub open spec fn history_text(
    g: GridView,
    agent: Seq<char>,
    start_line: Option<usize>,
    max_lines: Option<usize>,
) -> Seq<char> {
    if g.lines.len() == 0 {
        "Session is empty."@
    } else {
        let first = read_first(g, agent, start_line, max_lines);
        let end = read_end(g, agent, start_line, max_lines);
        "Showing lines "@ + decimal(first as nat) + "-"@ + decimal(end as nat) + " of "@ + decimal(
            g.lines.len(),
        ) + " (Agent: "@ + agent + ")\n---\n"@ + join_lines(g.lines.subrange(first, end))
    }
}

/// The grid after a read: the agent's cursor is set to the end of what it read.
pub open spec fn after_read(
    g: GridView,
    agent: Seq<char>,
    start_line: Option<usize>,
    max_lines: Option<usize>,
) -> GridView {
    if g.lines.len() == 0 {
        g
    } else {
        GridView {
            lines: g.lines,
            cursors: g.cursors.insert(agent, read_end(g, agent, start_line, max_lines) as usize),
            max_history: g.max_history,
        }
    }
}

/// The scrollback of a terminal session: cleaned lines of output, at most
/// `max_history` of them, and the read cursor of each agent.
pub struct TerminalGrid {
    buffer: Vec<String>,
    max_history: usize,
    cursors: CursorTable,
}

impl View for TerminalGrid {
    type V = GridView;

    closed spec fn view(&self) -> GridView {
        GridView {
            lines: self.buffer.deep_view(),
            cursors: self.cursors@,
            max_history: self.max_history as nat,
        }
    }
}

impl TerminalGrid {
    /// The grid is well formed: its limit is `MAX_HISTORY`, it keeps no more
    /// lines than that, and no cursor points past its last line.
    pub closed spec fn wf(&self) -> bool {
        &&& self.max_history == MAX_HISTORY
        &&& self.cursors.wf()
        &&& self.buffer@.len() <= self.max_history
        &&& forall|k: Seq<char>| #[trigger]
            self.cursors@.contains_key(k) ==> self.cursors@[k] <= self.buffer@.len()
    }

    /// An empty grid that keeps up to `MAX_HISTORY` lines.
    pub fn new() -> (g: Self)
        ensures
            g.wf(),
            g@.lines == Seq::<Seq<char>>::empty(),
            g@.cursors == Map::<Seq<char>, usize>::empty(),
            g@.max_history == MAX_HISTORY,
    {
        TerminalGrid { buffer: Vec::new(), max_history: MAX_HISTORY, cursors: CursorTable::new() }
    }

    /// Adds raw terminal output to the grid: the bytes are decoded as UTF-8,
    /// invalid sequences replaced, and the text added as `ingest_text` does.
    /// Valid UTF-8, and so ASCII, is added as the characters it encodes.
    pub fn ingest(&mut self, bytes: &[u8])
        requires
            old(self).wf(),
        ensures
            final(self).wf(),
            final(self)@ == after_ingest(old(self)@, bytes@),
            valid_utf8(bytes@) ==> final(self)@ == after_ingest_text(old(self)@, decode_utf8(bytes@)),
            all_ascii(bytes@) ==> final(self)@ == after_ingest_text(old(self)@, ascii_chars(bytes@)),
            final(self)@.lines.len() == min(
                MAX_HISTORY as int,
                old(self)@.lines.len() + count_newline_bytes(bytes@) + if old(self)@.lines.len() == 0 {
                    1int
                } else {
                    0int
                },
            ),
    {
        let text = decode_lossy(bytes);
        proof {
            if all_ascii(bytes@) {
                lemma_ascii_utf8(bytes@);
            }
            lemma_ingest_line_count(self@, text@);
        }
        self.ingest_text(text.as_slice());
    }

    /// Adds decoded terminal output to the grid.
    pub fn ingest_text(&mut self, text: &[char])
        requires
            old(self).wf(),
        ensures
            final(self).wf(),
            final(self)@ == after_ingest_text(old(self)@, text@),
    {
        let ghost g0 = self@;
        let pieces = split_clean_lines(text);
        let ghost pv = pieces.deep_view();
        assert(pv.len() > 0) by {
            lemma_split_join(text@);
        }
        let mut k: usize = 0;
        if self.buffer.len() > 0 {
            let mut last = self.buffer.pop().unwrap();
            last.append(pieces[0].as_str());
            self.buffer.push(last);
            k = 1;
        }
        let ghost base = self.buffer.deep_view();
        proof {
            if g0.lines.len() > 0 {
                assert(base =~= g0.lines.drop_last().push(g0.lines.last() + pv[0]));
            } else {
                assert(base =~= g0.lines);
            }
        }
        while k < pieces.len()
            invariant
                pv == pieces.deep_view(),
                0 < pv.len(),
                self.cursors.wf(),
                self.cursors@ == g0.cursors,
                self.max_history == g0.max_history,
                k <= pieces@.len(),
                g0.lines.len() > 0 ==> k >= 1,
                g0.lines.len() == 0 ==> base == g0.lines,
                self.buffer.deep_view() == base + pv.subrange(
                    if g0.lines.len() > 0 { 1 } else { 0 },
                    k as int,
                ),
            decreases pieces@.len() - k,
        {
            let ghost before = self.buffer.deep_view();
            self.buffer.push(pieces[k].clone());
            proof {
                let lo: int = if g0.lines.len() > 0 { 1 } else { 0 };
                assert(self.buffer.deep_view() =~= before.push(pv[k as int]));
                assert(pv.subrange(lo, k + 1) =~= pv.subrange(lo, k as int).push(pv[k as int]));
            }
            k = k + 1;
        }
        let ghost merged = self.buffer.deep_view();
        proof {
            if g0.lines.len() > 0 {
                assert(pv.subrange(1, pv.len() as int) =~= pv.drop_first());
            } else {
                assert(pv.subrange(0, pv.len() as int) =~= pv);
            }
            assert(merged =~= merge_lines(g0.lines, clean_lines(text@)));
            assert(merged.len() >= g0.lines.len());
        }
        if self.buffer.len() > self.max_history {
            let overflow = self.buffer.len() - self.max_history;
            let kept = self.buffer.split_off(overflow);
            self.buffer = kept;
            self.cursors.shift_back(overflow);
            proof {
                assert(self.buffer.deep_view() =~= merged.subrange(overflow as int, merged.len() as int));
                assert forall|k: Seq<char>| #[trigger] self.cursors@.contains_key(k) implies self.cursors@[k]
                    <= self.buffer@.len() by {
                    assert(g0.cursors.contains_key(k));
                }
            }
        }
    }

    /// Reads up to `max_lines` (by default 100) lines, starting at `start_line`,
    /// or, where that is absent, where this agent's last read ended (a new agent
    /// starts at the last lines). The agent's cursor moves to the end of the read.
    pub fn read_history(
        &mut self,
        agent_id: &str,
        start_line: Option<usize>,
        max_lines: Option<usize>,
    ) -> (text: String)
        requires
            old(self).wf(),
        ensures
            final(self).wf(),
            text@ == history_text(old(self)@, agent_id@, start_line, max_lines),
            final(self)@ == after_read(old(self)@, agent_id@, start_line, max_lines),
    {
        let total_lines = self.buffer.len();
        if total_lines == 0 {
            return String::from_str("Session is empty.");
        }
        let limit = match max_lines {
            Some(m) => m,
            None => DEFAULT_READ_LIMIT,
        };
        let start = match start_line {
            Some(s) => s,
            None => match self.cursors.get(agent_id) {
                Some(c) => c,
                None => {
                    let c = total_lines.saturating_sub(limit);
                    self.cursors.set(agent_id, c);
                    c
                },
            },
        };
        let safe_start = if start < total_lines { start } else { total_lines };
        let end = if limit < total_lines - safe_start { safe_start + limit } else { total_lines };
        self.cursors.set(agent_id, end);
        let mut out = String::from_str("Showing lines ");
        push_decimal(&mut out, safe_start);
        out.append("-");
        push_decimal(&mut out, end);
        out.append(" of ");
        push_decimal(&mut out, total_lines);
        out.append(" (Agent: ");
        out.append(agent_id);
        out.append(")\n---\n");
        push_joined(&mut out, &self.buffer, safe_start, end);
        proof {
            let g0 = old(self)@;
            assert(self@.cursors =~= g0.cursors.insert(agent_id@, end));
        }
        out
    }
}

impl TerminalGrid {
    /// The state of a new grid.
    pub open spec fn new_view() -> GridView {
        GridView {
            lines: Seq::empty(),
            cursors: Map::empty(),
            max_history: MAX_HISTORY as nat,
        }
    }
}

} // verus!

verus! {

/// A well-formed grid keeps at most `MAX_HISTORY` lines, and every cursor points
/// at or before its end.
pub proof fn lemma_grid_bounded(g: &TerminalGrid)
    requires
        g.wf(),
    ensures
        g@.max_history == MAX_HISTORY,
        g@.lines.len() <= g@.max_history,
        forall|k: Seq<char>| #[trigger] g@.cursors.contains_key(k) ==> g@.cursors[k] <= g@.lines.len(),
{
}

/// How many of the oldest lines are dropped when `text` comes into `g`.
pub open spec fn ingest_overflow(g: GridView, text: Seq<char>) -> int {
    let merged = merge_lines(g.lines, clean_lines(text));
    if merged.len() > g.max_history {
        merged.len() - g.max_history
    } else {
        0
    }
}

/// Whatever comes in, a grid ends up with at most its line limit, and the limit
/// itself stays.
pub proof fn lemma_ingest_bounded(g: GridView, text: Seq<char>)
    ensures
        after_ingest_text(g, text).lines.len() <= g.max_history,
        after_ingest_text(g, text).max_history == g.max_history,
{
}

/// Where no start line is given, an agent reads on exactly where its previous
/// read ended.
pub proof fn lemma_resume(
    g: GridView,
    agent: Seq<char>,
    start_line: Option<usize>,
    max_lines: Option<usize>,
    next_max_lines: Option<usize>,
)
    requires
        0 < g.lines.len() <= usize::MAX,
    ensures
        read_first(after_read(g, agent, start_line, max_lines), agent, None, next_max_lines)
            == read_end(g, agent, start_line, max_lines),
{
}

/// Output that arrives between two reads of an agent does not move where it
/// resumes, unless old lines are dropped: then the cursor moves back by as many
/// lines (stopping at 0), so that it stays on the same line.
pub proof fn lemma_resume_after_output(
    g: GridView,
    agent: Seq<char>,
    start_line: Option<usize>,
    max_lines: Option<usize>,
    text: Seq<char>,
    next_max_lines: Option<usize>,
)
    requires
        0 < g.lines.len() <= usize::MAX,
    ensures
        ({
            let g1 = after_read(g, agent, start_line, max_lines);
            requested_start(after_ingest_text(g1, text), agent, None, next_max_lines)
                == saturating_minus(
                read_end(g, agent, start_line, max_lines) as usize,
                ingest_overflow(g1, text),
            )
        }),
{
}

/// A read by one agent changes nothing that another agent reads: their cursors
/// never interfere.
pub proof fn lemma_reads_isolated(
    g: GridView,
    agent: Seq<char>,
    start_line: Option<usize>,
    max_lines: Option<usize>,
    other: Seq<char>,
    other_start: Option<usize>,
    other_max: Option<usize>,
)
    requires
        agent != other,
    ensures
        after_read(g, agent, start_line, max_lines).cursors.contains_key(other)
            == g.cursors.contains_key(other),
        after_read(g, agent, start_line, max_lines).cursors[other] == g.cursors[other],
        history_text(after_read(g, agent, start_line, max_lines), other, other_start, other_max)
            == history_text(g, other, other_start, other_max),
        after_read(after_read(g, agent, start_line, max_lines), other, other_start, other_max).cursors[agent]
            == after_read(g, agent, start_line, max_lines).cursors[agent],
{
}

/// An agent without a cursor that names no start line reads the last lines:
/// as many as its limit allows, up to the end.
pub proof fn lemma_new_agent_tails(g: GridView, agent: Seq<char>, max_lines: Option<usize>)
    requires
        !g.cursors.contains_key(agent),
    ensures
        read_end(g, agent, None, max_lines) == g.lines.len(),
        read_first(g, agent, None, max_lines) == if g.lines.len() >= read_limit(max_lines) {
            g.lines.len() - read_limit(max_lines)
        } else {
            0
        },
{
}

} // verus!

verus! {

/// What a read gives back of a write: text without escape characters and
/// carriage returns that comes into a new grid reads back, from line 0 over
/// all its lines, as exactly that text under the header of the read.
pub proof fn lemma_read_back(text: Seq<char>, agent: Seq<char>)
    requires
        !text.contains(esc()),
        !text.contains('\r'),
        split_lines(text).len() <= MAX_HISTORY,
    ensures
        ({
            let g = after_ingest_text(TerminalGrid::new_view(), text);
            let n = split_lines(text).len();
            &&& g.lines == split_lines(text)
            &&& history_text(g, agent, Some(0), Some(n as usize)) == "Showing lines "@ + decimal(0)
                + "-"@ + decimal(n) + " of "@ + decimal(n) + " (Agent: "@ + agent + ")\n---\n"@
                + text
        }),
{
    lemma_clean_plain(text);
    lemma_split_join(text);
    let g = after_ingest_text(TerminalGrid::new_view(), text);
    let lines = split_lines(text);
    assert(merge_lines(Seq::empty(), lines) =~= lines);
    assert(g.lines == lines);
    assert(lines.subrange(0, lines.len() as int) =~= lines);
}

} // verus!

verus! {

/// Merging into a grid from which its oldest lines were dropped is merging
/// into the whole grid and dropping them after.
proof fn lemma_merge_after_drop(x: Seq<Seq<char>>, q: Seq<Seq<char>>, o: int)
    requires
        0 <= o < x.len(),
        q.len() > 0,
    ensures
        merge_lines(x.subrange(o, x.len() as int), q) == merge_lines(x, q).subrange(
            o,
            merge_lines(x, q).len() as int,
        ),
{
    let t = x.subrange(o, x.len() as int);
    assert(t.drop_last() =~= x.drop_last().subrange(o, x.len() - 1));
    assert(t.last() == x.last());
    assert(merge_lines(t, q) =~= merge_lines(x, q).subrange(o, merge_lines(x, q).len() as int));
}

/// Merging lines is associative.
pub proof fn lemma_merge_assoc(l: Seq<Seq<char>>, c: Seq<Seq<char>>, d: Seq<Seq<char>>)
    requires
        c.len() > 0,
        d.len() > 0,
    ensures
        merge_lines(merge_lines(l, c), d) == merge_lines(l, merge_lines(c, d)),
        merge_lines(c, d).len() == c.len() + d.len() - 1,
{
    let cd = merge_lines(c, d);
    assert(cd =~= c.drop_last().push(c.last() + d[0]) + d.drop_first());
    if l.len() == 0 {
        assert(merge_lines(l, c) =~= c);
        assert(merge_lines(l, cd) =~= cd);
    } else {
        let lc = merge_lines(l, c);
        assert(lc =~= l.drop_last().push(l.last() + c[0]) + c.drop_first());
        if c.len() == 1 {
            assert(lc.last() == l.last() + c[0]);
            assert(lc.drop_last() =~= l.drop_last());
            assert(cd[0] == c[0] + d[0]);
            assert((l.last() + c[0]) + d[0] =~= l.last() + (c[0] + d[0]));
            assert(cd.drop_first() =~= d.drop_first());
        } else {
            assert(lc.last() == c.last());
            assert(lc.drop_last() =~= l.drop_last().push(l.last() + c[0]) + c.drop_first().drop_last());
            assert(cd[0] == c[0]);
            assert(cd.drop_first() =~= c.drop_first().drop_last().push(c.last() + d[0]) + d.drop_first());
        }
        assert(merge_lines(lc, d) =~= merge_lines(l, cd));
    }
}

/// How the terminal's output is cut into chunks does not matter where no cut
/// falls inside an escape sequence: output `a` and then `b` leave the grid as
/// `a + b` in one piece does.
pub proof fn lemma_chunked_output(g: GridView, a: Seq<char>, b: Seq<char>)
    requires
        !ends_in_escape(a),
        g.lines.len() <= g.max_history,
        forall|k: Seq<char>| #[trigger] g.cursors.contains_key(k) ==> g.cursors[k] <= g.lines.len(),
    ensures
        after_ingest_text(after_ingest_text(g, a), b) == after_ingest_text(g, a + b),
{
    lemma_clean_concat(a, b);
    let l = g.lines;
    let p = clean_lines(a);
    let q = clean_lines(b);
    let m = g.max_history as int;
    let m1 = merge_lines(l, p);
    let f = merge_lines(l, clean_lines(a + b));
    lemma_merge_assoc(l, p, q);
    assert(f == merge_lines(m1, q));
    assert(m1.len() > 0) by {
        if l.len() == 0 {
            assert(m1 =~= p);
        }
    }
    assert(merge_lines(m1, q).len() == m1.len() + q.len() - 1);
    let o1 = ingest_overflow(g, a);
    let g1 = after_ingest_text(g, a);
    let g2 = after_ingest_text(g1, b);
    let gf = after_ingest_text(g, a + b);
    let o2 = ingest_overflow(g1, b);
    let of = ingest_overflow(g, a + b);
    assert(g1.lines =~= m1.subrange(o1, m1.len() as int));
    if m == 0 {
        assert(l.len() == 0);
        assert(g1.lines.len() == 0);
        assert(merge_lines(g1.lines, q) =~= q);
        assert(g2.lines =~= gf.lines);
        assert forall|k: Seq<char>| #[trigger] g2.cursors.contains_key(k) implies g2.cursors[k]
            == gf.cursors[k] by {
            assert(g.cursors[k] == 0);
        }
        assert(g2.cursors =~= gf.cursors);
    } else {
        lemma_merge_after_drop(m1, q, o1);
        let m2 = merge_lines(g1.lines, q);
        assert(m2 == f.subrange(o1, f.len() as int));
        assert(o1 + o2 == of);
        assert(g2.lines =~= gf.lines);
        assert forall|k: Seq<char>| #[trigger] g2.cursors.contains_key(k) implies g2.cursors[k]
            == gf.cursors[k] by {
        }
        assert(g2.cursors =~= gf.cursors);
    }
}

} // verus!

verus! {

/// How many lines a grid holds after text comes in: one more per newline (the
/// first piece continues the last line, or makes the first line of an empty
/// grid), and never more than its limit.
pub proof fn lemma_ingest_line_count(g: GridView, text: Seq<char>)
    ensures
        after_ingest_text(g, text).lines.len() == min(
            g.max_history as int,
            g.lines.len() + count_newlines(text) + if g.lines.len() == 0 { 1int } else { 0int },
        ),
{
    lemma_split_count(text);
    let p = clean_lines(text);
    let m = merge_lines(g.lines, p);
    if g.lines.len() > 0 {
        assert(m.len() == g.lines.len() + p.len() - 1);
    } else {
        assert(m =~= p);
    }
}

/// The same count for raw output that is valid UTF-8 (ASCII among it): one
/// more line per newline byte.
pub proof fn lemma_ingest_utf8_line_count(g: GridView, bytes: Seq<u8>)
    requires
        valid_utf8(bytes),
    ensures
        after_ingest_text(g, decode_utf8(bytes)).lines.len() == min(
            g.max_history as int,
            g.lines.len() + count_newline_bytes(bytes) + if g.lines.len() == 0 { 1int } else { 0int },
        ),
{
    lemma_ingest_line_count(g, decode_utf8(bytes));
    lemma_utf8_newlines(bytes);
}

/// For raw output that is valid UTF-8: two chunks leave the grid as their
/// concatenation in one piece does, where the first does not end inside an
/// escape sequence.
pub proof fn lemma_chunked_bytes(g: GridView, a: Seq<u8>, b: Seq<u8>)
    requires
        valid_utf8(a),
        valid_utf8(b),
        !ends_in_escape(decode_utf8(a)),
        g.lines.len() <= g.max_history,
        forall|k: Seq<char>| #[trigger] g.cursors.contains_key(k) ==> g.cursors[k] <= g.lines.len(),
    ensures
        valid_utf8(a + b),
        after_ingest_text(after_ingest_text(g, decode_utf8(a)), decode_utf8(b)) == after_ingest_text(
            g,
            decode_utf8(a + b),
        ),
{
    lemma_decode_concat(a, b);
    lemma_chunked_output(g, decode_utf8(a), decode_utf8(b));
}

} // verus!

verus! {

/// The window of every read, in plain arithmetic over its arguments: it starts
/// at the given line, else at the agent's cursor, else (for an agent without
/// one) as many lines before the end as the limit, always at most the line
/// count; and it holds at most `max_lines` lines, or 100 where that is absent,
/// stopping at the last line.
pub proof fn lemma_read_window(
    g: GridView,
    agent: Seq<char>,
    start_line: Option<usize>,
    max_lines: Option<usize>,
)
    ensures
        start_line matches Some(s) ==> read_first(g, agent, start_line, max_lines) == min(
            s as int,
            g.lines.len() as int,
        ),
        start_line is None && g.cursors.contains_key(agent) ==> read_first(
            g,
            agent,
            start_line,
            max_lines,
        ) == min(g.cursors[agent] as int, g.lines.len() as int),
        start_line is None && !g.cursors.contains_key(agent) && max_lines is None ==> read_first(
            g,
            agent,
            start_line,
            max_lines,
        ) == max(g.lines.len() - 100, 0),
        start_line is None && !g.cursors.contains_key(agent) && max_lines is Some ==> read_first(
            g,
            agent,
            start_line,
            max_lines,
        ) == max(g.lines.len() - max_lines->0, 0),
        max_lines is None ==> read_end(g, agent, start_line, max_lines) == min(
            read_first(g, agent, start_line, max_lines) + 100,
            g.lines.len() as int,
        ),
        max_lines matches Some(m) ==> read_end(g, agent, start_line, max_lines) == min(
            read_first(g, agent, start_line, max_lines) + m,
            g.lines.len() as int,
        ),
        max_lines is None ==> read_end(g, agent, start_line, max_lines) - read_first(
            g,
            agent,
            start_line,
            max_lines,
        ) <= 100,
        0 <= read_first(g, agent, start_line, max_lines) <= read_end(g, agent, start_line, max_lines)
            <= g.lines.len(),
{
}

} // verus!

verus! {

/// What a read of a non-empty grid returns and where it leaves the agent's
/// cursor, with the limit written out: the header names the window
/// `first..end`, where `end` is `first` plus `max_lines` (100 where absent),
/// stopping at the line count, and the body is exactly those lines.
pub proof fn lemma_read_shows_window(
    g: GridView,
    agent: Seq<char>,
    start_line: Option<usize>,
    max_lines: Option<usize>,
)
    requires
        0 < g.lines.len() <= usize::MAX,
    ensures
        ({
            let first = read_first(g, agent, start_line, max_lines);
            let limit: int = match max_lines {
                Some(m) => m as int,
                None => 100,
            };
            let end = min(first + limit, g.lines.len() as int);
            &&& history_text(g, agent, start_line, max_lines) == "Showing lines "@ + decimal(
                first as nat,
            ) + "-"@ + decimal(end as nat) + " of "@ + decimal(g.lines.len()) + " (Agent: "@
                + agent + ")\n---\n"@ + join_lines(g.lines.subrange(first, end))
            &&& after_read(g, agent, start_line, max_lines).cursors[agent] == end
            &&& after_read(g, agent, start_line, max_lines).lines == g.lines
        }),
{
    lemma_read_window(g, agent, start_line, max_lines);
}

} // verus!
