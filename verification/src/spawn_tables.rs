//! Per-depth dungeon spawn tables, built from the monster table: a
//! comma-separated text whose header names the columns `id`,
//! `dungeonMinDepth`, `dungeonMaxDepth`, `dungeonWeight` and
//! `dungeonAggressive`. Every row with a minimum depth is a dungeon spawn
//! for the depths `min..=max` (a blank or unreadable maximum means the
//! bottom floor; deeper values are clamped to it); rows keep their order in
//! each table, which the weighted pick relies on.
use vstd::prelude::*;
use crate::csv_text::{
    to_chars, next_index_of, lemma_next_index_of, line_at, lines_from, fields_from, trim, trim_range,
    find_char, range_eq, parse_unsigned, parse_unsigned_range,
};
use vstd::string::{StrSliceExecFns, StringExecFns};
use crate::dungeon::{SpawnEntry, FloorLayout, MAX_DEPTH, table_at, entry_weights};
use crate::weights::{weight_sum, all_nonneg, lemma_weight_sum_prefix};
use crate::dungeon_gen::{dungeon_ok, lemma_generated_floors_have_spawns};

verus! {

/// One readable data row: monster id, depth range, weight, proactive flag.
pub type RowView = (Seq<char>, int, int, int, bool);

/// The column positions of `id`, `dungeonMinDepth`, `dungeonMaxDepth`,
/// `dungeonWeight` and `dungeonAggressive`.
pub type ColumnsView = (int, int, int, int, int);

/// The trimmed names of a header line.
pub open spec fn header_names(h: Seq<char>) -> Seq<Seq<char>> {
    fields_from(h, 0).map_values(|f: Seq<char>| trim(f))
}

/// First position at or after `i` of `name` among `names`, or the length.
pub open spec fn name_index_from(names: Seq<Seq<char>>, name: Seq<char>, i: int) -> int
    decreases names.len() - i,
{
    if i < 0 || i >= names.len() {
        names.len() as int
    } else if names[i] == name {
        i
    } else {
        name_index_from(names, name, i + 1)
    }
}

pub open spec fn column_of(h: Seq<char>, name: Seq<char>) -> int {
    name_index_from(header_names(h), name, 0)
}

pub open spec fn has_column(h: Seq<char>, name: Seq<char>) -> bool {
    column_of(h, name) < header_names(h).len()
}

pub open spec fn columns_of(h: Seq<char>) -> ColumnsView {
    (
        column_of(h, "id"@),
        column_of(h, "dungeonMinDepth"@),
        column_of(h, "dungeonMaxDepth"@),
        column_of(h, "dungeonWeight"@),
        column_of(h, "dungeonAggressive"@),
    )
}

/// The header names all five columns.
pub open spec fn header_ok(h: Seq<char>) -> bool {
    &&& has_column(h, "id"@)
    &&& has_column(h, "dungeonMinDepth"@)
    &&& has_column(h, "dungeonMaxDepth"@)
    &&& has_column(h, "dungeonWeight"@)
    &&& has_column(h, "dungeonAggressive"@)
}

/// Trimmed field `k` of a line; empty past the last field.
pub open spec fn field_at(line: Seq<char>, k: int) -> Seq<char> {
    let fs = fields_from(line, 0);
    if 0 <= k < fs.len() {
        trim(fs[k])
    } else {
        Seq::empty()
    }
}

pub open spec fn min_i(a: int, b: int) -> int {
    if a <= b { a } else { b }
}

pub open spec fn max_i(a: int, b: int) -> int {
    if a >= b { a } else { b }
}

/// What a data line contributes: nothing when blank or without a readable
/// minimum depth; else the id, the depth range (an unreadable maximum
/// means the bottom floor, deeper values clamp to it), the weight (an
/// unreadable one counts 1, and at least 1), and whether the aggressive
/// column says exactly `true`.
pub open spec fn row_of(line: Seq<char>, c: ColumnsView) -> Option<RowView> {
    if trim(line).len() == 0 {
        None
    } else {
        match parse_unsigned(field_at(line, c.1), 255) {
            None => None,
            Some(lo) => {
                let hi = match parse_unsigned(field_at(line, c.2), 255) {
                    Some(v) => min_i(v, MAX_DEPTH as int),
                    None => MAX_DEPTH as int,
                };
                let w = match parse_unsigned(field_at(line, c.3), u32::MAX as int) {
                    Some(v) => max_i(v, 1),
                    None => 1,
                };
                Some((field_at(line, c.0), lo, hi, w, field_at(line, c.4) == seq!['t', 'r', 'u', 'e']))
            },
        }
    }
}

pub open spec fn rows_of(lines: Seq<Seq<char>>, c: ColumnsView) -> Seq<RowView>
    decreases lines.len(),
{
    if lines.len() == 0 {
        Seq::empty()
    } else {
        (match row_of(lines[0], c) {
            Some(r) => seq![r],
            None => Seq::empty(),
        }) + rows_of(lines.drop_first(), c)
    }
}

/// The data rows of a monster table (every line after the header).
pub open spec fn table_rows(t: Seq<char>) -> Seq<RowView> {
    let lines = lines_from(t, 0);
    if lines.len() == 0 {
        Seq::empty()
    } else {
        rows_of(lines.drop_first(), columns_of(lines[0]))
    }
}

/// The text has no lines, or a header naming the five columns.
pub open spec fn table_ok(t: Seq<char>) -> bool {
    lines_from(t, 0).len() == 0 || header_ok(lines_from(t, 0)[0])
}

/// The spawn entries `(id, weight, proactive)` of depth `d`, in row order.
pub open spec fn depth_entries(rows: Seq<RowView>, d: int) -> Seq<(Seq<char>, int, bool)>
    decreases rows.len(),
{
    if rows.len() == 0 {
        Seq::empty()
    } else {
        let r = rows.last();
        depth_entries(rows.drop_last(), d) + if r.1 <= d <= r.2 {
            seq![(r.0, r.3, r.4)]
        } else {
            Seq::empty()
        }
    }
}

pub open spec fn entry_view(e: SpawnEntry) -> (Seq<char>, int, bool) {
    (e.monster_type@, e.weight as int, e.aggressive)
}

struct Row {
    id: String,
    lo: u8,
    hi: u8,
    weight: u32,
    aggressive: bool,
}

spec fn row_view(r: Row) -> RowView {
    (r.id@, r.lo as int, r.hi as int, r.weight as int, r.aggressive)
}

proof fn lemma_next_index_shift(s: Seq<char>, c: char, a: int, b: int, p: int)
    requires
        0 <= a <= p <= b <= s.len(),
    ensures
        next_index_of(s.subrange(0, b), c, p) - a == next_index_of(s.subrange(a, b), c, p - a),
    decreases b - p,
{
    if p < b {
        lemma_next_index_shift(s, c, a, b, p + 1);
    }
}

/// Bounds `[r.0, r.1)` of the line starting at `i`, and where the next
/// line starts.
fn line_bounds(v: &Vec<char>, i: usize) -> (r: (usize, usize, usize))
    requires
        i < v@.len() < usize::MAX,
    ensures
        i == r.0 <= r.1 <= v@.len(),
        r.2 <= v@.len() + 1,
        v@.subrange(r.0 as int, r.1 as int) == line_at(v@, i as int),
        r.2 == next_index_of(v@, '\n', i as int) + 1,
        r.2 > i,
{
    let n = v.len();
    let e = find_char(v, '\n', i, n);
    proof {
        assert(v@.subrange(0, n as int) =~= v@);
        lemma_next_index_of(v@, '\n', i as int);
    }
    let b = if e < n && e > i && v[e - 1] == '\r' { e - 1 } else { e };
    proof {
        let raw = v@.subrange(i as int, e as int);
        if e < n && e > i && v@[e - 1] == '\r' {
            assert(raw.last() == '\r');
            assert(v@.subrange(i as int, b as int) =~= raw.drop_last());
        }
    }
    (i, b, e + 1)
}

/// Bounds of the trimmed field `k` of the line `[a, b)`; an empty range
/// past the last field.
fn field_bounds(v: &Vec<char>, a: usize, b: usize, k: usize) -> (r: (usize, usize))
    requires
        a <= b <= v@.len(),
    ensures
        r.0 <= r.1 <= v@.len(),
        v@.subrange(r.0 as int, r.1 as int) == field_at(v@.subrange(a as int, b as int), k as int),
{
    let ghost line = v@.subrange(a as int, b as int);
    let ghost all = fields_from(line, 0);
    let mut p = a;
    let mut j: usize = 0;
    while j < k
        invariant
            a <= p <= b <= v@.len(),
            line == v@.subrange(a as int, b as int),
            all == fields_from(line, 0),
            0 <= j <= k,
            j <= all.len(),
            all.subrange(j as int, all.len() as int) == fields_from(line, p - a),
        decreases k - j,
    {
        let e = find_char(v, ',', p, b);
        proof {
            lemma_next_index_shift(v@, ',', a as int, b as int, p as int);
            lemma_next_index_of(line, ',', p - a);
        }
        if e >= b {
            proof {
                assert(fields_from(line, p - a).len() == 1);
                assert(all.len() == j + 1);
                assert(field_at(line, k as int) == Seq::<char>::empty());
                assert(v@.subrange(a as int, a as int) =~= Seq::<char>::empty());
            }
            return (a, a);
        }
        proof {
            let f = fields_from(line, p - a);
            assert(f == seq![line.subrange(p - a, e - a)] + fields_from(line, e - a + 1));
            assert(f.drop_first() =~= fields_from(line, e - a + 1));
            assert(all.subrange(j + 1, all.len() as int) =~= all.subrange(j as int, all.len() as int).drop_first());
        }
        p = e + 1;
        j = j + 1;
    }
    let e = find_char(v, ',', p, b);
    proof {
        lemma_next_index_shift(v@, ',', a as int, b as int, p as int);
        lemma_next_index_of(line, ',', p - a);
        assert(all[k as int] == fields_from(line, p - a)[0]);
        assert(fields_from(line, p - a)[0] =~= line.subrange(p - a, e - a));
        assert(line.subrange(p - a, e - a) =~= v@.subrange(p as int, e as int));
    }
    let r = trim_range(v, p, e);
    r
}

/// Position of the header field named `name` in the line `[a, b)`.
fn find_column(v: &Vec<char>, a: usize, b: usize, name: &Vec<char>) -> (r: Option<usize>)
    requires
        a <= b <= v@.len(),
    ensures
        match r {
            Some(k) => k == column_of(v@.subrange(a as int, b as int), name@) && has_column(
                v@.subrange(a as int, b as int),
                name@,
            ),
            None => !has_column(v@.subrange(a as int, b as int), name@),
        },
{
    let ghost line = v@.subrange(a as int, b as int);
    let ghost all = fields_from(line, 0);
    let ghost names = header_names(line);
    let mut p = a;
    let mut j: usize = 0;
    loop
        invariant
            a <= p <= b <= v@.len(),
            line == v@.subrange(a as int, b as int),
            all == fields_from(line, 0),
            names == header_names(line),
            j <= all.len(),
            j <= p - a,
            all.subrange(j as int, all.len() as int) == fields_from(line, p - a),
            name_index_from(names, name@, 0) == name_index_from(names, name@, j as int),
        decreases b - p,
    {
        let e = find_char(v, ',', p, b);
        proof {
            lemma_next_index_shift(v@, ',', a as int, b as int, p as int);
            lemma_next_index_of(line, ',', p - a);
            assert(j < all.len()) by {
                if j == all.len() {
                    assert(fields_from(line, p - a).len() >= 1);
                }
            }
            assert(all[j as int] == fields_from(line, p - a)[0]);
            assert(fields_from(line, p - a)[0] =~= line.subrange(p - a, e - a));
            assert(line.subrange(p - a, e - a) =~= v@.subrange(p as int, e as int));
            assert(names[j as int] == trim(all[j as int]));
        }
        let (ta, tb) = trim_range(v, p, e);
        if range_eq(v, ta, tb, name) {
            return Some(j);
        }
        if e >= b {
            proof {
                assert(fields_from(line, p - a).len() == 1);
                assert(name_index_from(names, name@, j + 1) == names.len());
            }
            return None;
        }
        proof {
            let f = fields_from(line, p - a);
            assert(f == seq![line.subrange(p - a, e - a)] + fields_from(line, e - a + 1));
            assert(f.drop_first() =~= fields_from(line, e - a + 1));
            assert(all.subrange(j + 1, all.len() as int) =~= all.subrange(j as int, all.len() as int).drop_first());
        }
        p = e + 1;
        j = j + 1;
    }
}

/// Read the data line `[a, b)` with columns `c`.
fn parse_row(text: &str, v: &Vec<char>, a: usize, b: usize, c: (usize, usize, usize, usize, usize), true_word: &Vec<
    char,
>) -> (r: Option<Row>)
    requires
        text@ == v@,
        a <= b <= v@.len(),
        true_word@ == seq!['t', 'r', 'u', 'e'],
    ensures
        match r {
            Some(row) => row_of(v@.subrange(a as int, b as int), (c.0 as int, c.1 as int, c.2 as int, c.3 as int, c.4 as int))
                == Some(row_view(row)),
            None => row_of(v@.subrange(a as int, b as int), (c.0 as int, c.1 as int, c.2 as int, c.3 as int, c.4 as int)) is None,
        },
{
    let (ta, tb) = trim_range(v, a, b);
    if ta == tb {
        return None;
    }
    let (m0, m1) = field_bounds(v, a, b, c.1);
    let lo = match parse_unsigned_range(v, m0, m1, 255) {
        None => {
            return None;
        },
        Some(x) => x as u8,
    };
    let (x0, x1) = field_bounds(v, a, b, c.2);
    let hi: u8 = match parse_unsigned_range(v, x0, x1, 255) {
        Some(x) => if x < MAX_DEPTH as u64 { x as u8 } else { MAX_DEPTH },
        None => MAX_DEPTH,
    };
    let (w0, w1) = field_bounds(v, a, b, c.3);
    let weight: u32 = match parse_unsigned_range(v, w0, w1, 0xffff_ffff) {
        Some(x) => if x > 1 { x as u32 } else { 1 },
        None => 1,
    };
    let (g0, g1) = field_bounds(v, a, b, c.4);
    let aggressive = range_eq(v, g0, g1, true_word);
    let (i0, i1) = field_bounds(v, a, b, c.0);
    let id = String::from_str(text.substring_char(i0, i1));
    Some(Row { id, lo, hi, weight, aggressive })
}

fn table_for_depth(rows: &Vec<Row>, d: u8) -> (t: Vec<SpawnEntry>)
    ensures
        t@.map_values(|e: SpawnEntry| entry_view(e)) == depth_entries(
            rows@.map_values(|r: Row| row_view(r)),
            d as int,
        ),
{
    let ghost rv = rows@.map_values(|r: Row| row_view(r));
    let mut out: Vec<SpawnEntry> = Vec::new();
    let mut i: usize = 0;
    while i < rows.len()
        invariant
            0 <= i <= rows@.len(),
            rv == rows@.map_values(|r: Row| row_view(r)),
            out@.map_values(|e: SpawnEntry| entry_view(e)) == depth_entries(rv.take(i as int), d as int),
        decreases rows@.len() - i,
    {
        let r = &rows[i];
        proof {
            assert(rv.take(i + 1).drop_last() =~= rv.take(i as int));
            assert(rv.take(i + 1).last() == row_view(rows@[i as int]));
        }
        if r.lo <= d && d <= r.hi {
            let e = SpawnEntry { monster_type: r.id.clone(), weight: r.weight, aggressive: r.aggressive };
            out.push(e);
            proof {
                assert(out@.map_values(|e: SpawnEntry| entry_view(e)) =~= depth_entries(
                    rv.take(i + 1),
                    d as int,
                ));
            }
        } else {
            proof {
                assert(out@.map_values(|e: SpawnEntry| entry_view(e)) =~= depth_entries(
                    rv.take(i + 1),
                    d as int,
                ));
            }
        }
        i = i + 1;
    }
    proof {
        assert(rv.take(rows@.len() as int) =~= rv);
    }
    out
}

/// Per-depth spawn tables (indexed `0..=MAX_DEPTH`) from the monster table
/// `csv`: table `d` lists, in row order, every readable row whose depth
/// range covers `d`. A table whose header misses one of the five columns
/// is refused (`None`).
pub fn build_spawn_tables(csv: &str) -> (r: Option<Vec<Vec<SpawnEntry>>>)
    requires
        csv@.len() < usize::MAX,
    ensures
        r is Some <==> table_ok(csv@),
        r matches Some(tables) ==> {
            &&& tables@.len() == MAX_DEPTH + 1
            &&& forall|d: int|
                0 <= d <= MAX_DEPTH ==> (#[trigger] tables@[d])@.map_values(|e: SpawnEntry| entry_view(e))
                    == depth_entries(table_rows(csv@), d)
        },
{
    let v = to_chars(csv);
    let n = v.len();
    let ghost t = v@;
    let mut rows: Vec<Row> = Vec::new();
    proof {
        reveal_strlit("true");
        reveal_strlit("id");
        reveal_strlit("dungeonMinDepth");
        reveal_strlit("dungeonMaxDepth");
        reveal_strlit("dungeonWeight");
        reveal_strlit("dungeonAggressive");
    }
    if n > 0 {
        let (h0, h1, first) = line_bounds(&v, 0);
        let ghost header = v@.subrange(h0 as int, h1 as int);
        let ghost lines = lines_from(t, 0);
        proof {
            assert(lines == seq![line_at(t, 0)] + lines_from(t, next_index_of(t, '\n', 0) + 1));
            assert(lines[0] == header);
            assert(lines.drop_first() =~= lines_from(t, first as int));
        }
        let id_name = to_chars("id");
        let min_name = to_chars("dungeonMinDepth");
        let max_name = to_chars("dungeonMaxDepth");
        let weight_name = to_chars("dungeonWeight");
        let aggr_name = to_chars("dungeonAggressive");
        let true_word = to_chars("true");
        let c0 = find_column(&v, h0, h1, &id_name);
        let c1 = find_column(&v, h0, h1, &min_name);
        let c2 = find_column(&v, h0, h1, &max_name);
        let c3 = find_column(&v, h0, h1, &weight_name);
        let c4 = find_column(&v, h0, h1, &aggr_name);
        let c = match (c0, c1, c2, c3, c4) {
            (Some(k0), Some(k1), Some(k2), Some(k3), Some(k4)) => (k0, k1, k2, k3, k4),
            _ => {
                return None;
            },
        };
        let ghost cv = (c.0 as int, c.1 as int, c.2 as int, c.3 as int, c.4 as int);
        proof {
            assert(cv == columns_of(header));
        }
        let ghost target = rows_of(lines_from(t, first as int), cv);
        let mut i = first;
        while i < n
            invariant
                n == v@.len(),
                t == v@,
                csv@ == v@,
                true_word@ == seq!['t', 'r', 'u', 'e'],
                cv == (c.0 as int, c.1 as int, c.2 as int, c.3 as int, c.4 as int),
                0 < i <= n + 1,
                n < usize::MAX,
                rows@.map_values(|r: Row| row_view(r)) + rows_of(lines_from(t, i as int), cv) == target,
            decreases n + 1 - i,
        {
            let (a, b, next) = line_bounds(&v, i);
            let ghost before = rows@.map_values(|r: Row| row_view(r));
            proof {
                let ls = lines_from(t, i as int);
                assert(ls == seq![line_at(t, i as int)] + lines_from(t, next as int));
                assert(ls[0] == v@.subrange(a as int, b as int));
                assert(ls.drop_first() =~= lines_from(t, next as int));
            }
            match parse_row(csv, &v, a, b, c, &true_word) {
                Some(row) => {
                    rows.push(row);
                    proof {
                        assert(rows@.map_values(|r: Row| row_view(r)) =~= before.push(row_view(row)));
                        assert(before.push(row_view(row)) + rows_of(lines_from(t, next as int), cv)
                            =~= before + (seq![row_view(row)] + rows_of(lines_from(t, next as int), cv)));
                    }
                },
                None => {
                    proof {
                        assert(before + rows_of(lines_from(t, next as int), cv) =~= before + (
                        Seq::<RowView>::empty() + rows_of(lines_from(t, next as int), cv)));
                    }
                },
            }
            i = next;
        }
        proof {
            assert(lines_from(t, i as int) == Seq::<Seq<char>>::empty());
            assert(rows@.map_values(|r: Row| row_view(r)) =~= target);
            assert(table_rows(t) == target);
        }
    } else {
        proof {
            assert(table_rows(t) =~= rows@.map_values(|r: Row| row_view(r)));
        }
    }
    let mut tables: Vec<Vec<SpawnEntry>> = Vec::new();
    let mut d: u8 = 0;
    while d <= MAX_DEPTH
        invariant
            0 <= d <= MAX_DEPTH + 1,
            tables@.len() == d,
            rows@.map_values(|r: Row| row_view(r)) == table_rows(csv@),
            forall|k: int|
                0 <= k < d ==> (#[trigger] tables@[k])@.map_values(|e: SpawnEntry| entry_view(e))
                    == depth_entries(table_rows(csv@), k),
        decreases MAX_DEPTH + 1 - d,
    {
        let t_d = table_for_depth(&rows, d);
        tables.push(t_d);
        d = d + 1;
    }
    Some(tables)
}

/// Some readable row of `rows` is a spawn at depth `d` with a positive
/// weight.
pub open spec fn weighted_row_at(rows: Seq<RowView>, d: int) -> bool {
    exists|k: int| 0 <= k < rows.len() && (#[trigger] rows[k]).1 <= d <= rows[k].2 && rows[k].3 > 0
}

/// A row spawning at `d` with a positive weight leaves an entry of positive
/// weight in depth `d`'s list.
proof fn lemma_weighted_row_listed(rows: Seq<RowView>, d: int)
    requires
        weighted_row_at(rows, d),
    ensures
        exists|i: int| 0 <= i < depth_entries(rows, d).len() && (#[trigger] depth_entries(rows, d)[i]).1 > 0,
    decreases rows.len(),
{
    let k = choose|k: int| 0 <= k < rows.len() && (#[trigger] rows[k]).1 <= d <= rows[k].2 && rows[k].3 > 0;
    let prev = depth_entries(rows.drop_last(), d);
    let r = rows.last();
    let tail = if r.1 <= d <= r.2 { seq![(r.0, r.3, r.4)] } else { Seq::empty() };
    assert(depth_entries(rows, d) == prev + tail);
    if k == rows.len() - 1 {
        assert((prev + tail)[prev.len() as int] == (r.0, r.3, r.4));
    } else {
        assert(rows.drop_last()[k] == rows[k]);
        assert(weighted_row_at(rows.drop_last(), d));
        lemma_weighted_row_listed(rows.drop_last(), d);
        let i = choose|i: int| 0 <= i < prev.len() && (#[trigger] prev[i]).1 > 0;
        assert((prev + tail)[i] == prev[i]);
    }
}

/// Non-negative weights with one positive among them add up to more than
/// nothing.
proof fn lemma_positive_weight_sum(ws: Seq<int>, i: int)
    requires
        all_nonneg(ws),
        0 <= i < ws.len(),
        ws[i] > 0,
    ensures
        weight_sum(ws) > 0,
    decreases ws.len(),
{
    let rest = ws.drop_first();
    assert(all_nonneg(rest));
    if i == 0 {
        lemma_weight_sum_prefix(rest, rest.len() as int);
        assert(rest.take(rest.len() as int) =~= rest);
    } else {
        assert(rest[i - 1] == ws[i]);
        lemma_positive_weight_sum(rest, i - 1);
    }
}

/// Tables built from a monster table text, as `build_spawn_tables` returns
/// them.
pub open spec fn tables_from(csv: Seq<char>, tables: Seq<Vec<SpawnEntry>>) -> bool {
    &&& tables.len() == MAX_DEPTH + 1
    &&& forall|d: int|
        0 <= d <= MAX_DEPTH ==> (#[trigger] tables[d])@.map_values(|e: SpawnEntry| entry_view(e))
            == depth_entries(table_rows(csv), d)
}

/// Every floor of a dungeon generated with the tables of a monster table
/// text gets a regular monster when a row of the text spawns at its depth
/// with a positive weight; the final floor always opens with the boss.
pub proof fn lemma_covered_floors_get_monsters(
    csv: Seq<char>,
    tables: Seq<Vec<SpawnEntry>>,
    fs: Seq<FloorLayout>,
    i: int,
)
    requires
        tables_from(csv, tables),
        dungeon_ok(fs, tables),
        0 <= i < fs.len(),
    ensures
        weighted_row_at(table_rows(csv), i + 1) ==> exists|k: int|
            0 <= k < fs[i].spawns@.len() && !(#[trigger] fs[i].spawns@[k]).is_boss,
        i == fs.len() - 1 ==> fs[i].spawns@.len() >= 1 && fs[i].spawns@[0].is_boss,
{
    let d = i + 1;
    lemma_generated_floors_have_spawns(fs, tables, i);
    if weighted_row_at(table_rows(csv), d) {
        let rows = table_rows(csv);
        lemma_weighted_row_listed(rows, d);
        let de = depth_entries(rows, d);
        let j = choose|j: int| 0 <= j < de.len() && (#[trigger] de[j]).1 > 0;
        let t = table_at(tables, d);
        assert(t == tables[d]@);
        assert(t.map_values(|e: SpawnEntry| entry_view(e)) == de);
        assert(t.map_values(|e: SpawnEntry| entry_view(e))[j] == de[j]);
        let ws = entry_weights(t);
        assert(ws[j] == t[j].weight as int);
        assert(all_nonneg(ws));
        lemma_positive_weight_sum(ws, j);
    }
}

} // verus!
