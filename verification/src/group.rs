use vstd::prelude::*;

use core::cmp::Ordering;

use crate::colorset::{color_set_union, lemma_sorted_len_is_set_len, sorted_colors};
use crate::pixel::PixelColor;
use crate::tile::{spec_compat, Tile, MAX_COLORS};

verus! {

/// How a candidate stands at the moment a group scans it: free to be
/// absorbed, already absorbed by some group, or the sign that nothing
/// useful follows (a zero score in a descending list ends the scan).
#[derive(Clone, Copy, PartialEq, Eq, Structural, Debug)]
pub enum Candidacy {
    Available,
    Taken,
    End,
}

/// One possible partner for a group: a tile, named by its index in the
/// tile list, and its compatibility score with the row's own tile.
#[derive(Clone, Copy, PartialEq, Eq, Structural, Debug)]
pub struct Candidate {
    pub tile: usize,
    pub compat: usize,
}

/// The order of a finished candidate row: score descending, ties broken by
/// tile index ascending, which is what a stable sort by score leaves when
/// the row is first laid out in index order.
pub open spec fn cand_le(a: Candidate, b: Candidate) -> bool {
    a.compat > b.compat || (a.compat == b.compat && a.tile <= b.tile)
}

/// The same order as a relation value, for the sortedness predicates.
pub open spec fn cand_le_order() -> spec_fn(Candidate, Candidate) -> bool {
    |a: Candidate, b: Candidate| cand_le(a, b)
}

/// The row order is total: any two candidates compare, and two that
/// compare both ways are equal.
pub proof fn lemma_cand_le_total_ordering()
    ensures
        vstd::relations::total_ordering(cand_le_order()),
{
    let r = cand_le_order();
    assert forall|a: Candidate, b: Candidate| #[trigger] r(a, b) && #[trigger] r(b, a) implies a
        == b by {
    }
    assert(vstd::relations::reflexive(r));
    assert(vstd::relations::antisymmetric(r));
    assert(vstd::relations::transitive(r));
    assert(vstd::relations::strongly_connected(r));
}

/// What a candidate's classification is, given the claim state of every tile.
pub open spec fn spec_candidacy(c: Candidate, claims: Seq<bool>) -> Candidacy {
    if c.compat == 0 {
        Candidacy::End
    } else if !claims[c.tile as int] {
        Candidacy::Taken
    } else {
        Candidacy::Available
    }
}

impl Candidate {
    pub fn new(tile: usize, compat: usize) -> (c: Candidate)
        ensures
            c == (Candidate { tile, compat }),
    {
        Candidate { tile, compat }
    }

    /// Compares two candidates by score alone, flipped so that a sort by
    /// this comparison lays the highest score first.
    pub fn cmp_by_compat(&self, other: &Candidate) -> (r: Ordering)
        ensures
            r == Ordering::Less <==> other.compat < self.compat,
            r == Ordering::Equal <==> other.compat == self.compat,
            r == Ordering::Greater <==> other.compat > self.compat,
    {
        if other.compat < self.compat {
            Ordering::Less
        } else if other.compat == self.compat {
            Ordering::Equal
        } else {
            Ordering::Greater
        }
    }

    /// Classifies this candidate from its score and the claim state: a zero
    /// score ends the scan, a claimed tile is skipped, anything else is free.
    pub fn candidacy(&self, claims: &Vec<bool>) -> (c: Candidacy)
        requires
            self.tile < claims@.len(),
        ensures
            c == spec_candidacy(*self, claims@),
    {
        if self.compat == 0 {
            return Candidacy::End;
        }
        if !claims[self.tile] {
            return Candidacy::Taken;
        }
        Candidacy::Available
    }

    /// Marks this candidate's tile as absorbed: its one-time transition
    /// from present to absent.
    pub fn claim(&self, claims: &mut Vec<bool>)
        requires
            self.tile < old(claims)@.len(),
        ensures
            final(claims)@ == old(claims)@.update(self.tile as int, false),
    {
        claims.set(self.tile, false);
    }
}

/// Row `i` of the candidate table before sorting: every tile of the list,
/// in index order, scored against tile `i` (tile `i` itself scores zero).
pub open spec fn base_row(tiles: Seq<Tile>, i: int) -> Seq<Candidate> {
    Seq::new(
        tiles.len(),
        |j: int|
            Candidate {
                tile: j as usize,
                compat: spec_compat(tiles[i], tiles[j]) as usize,
            },
    )
}

/// A finished row holds exactly the candidates of the base row, in the
/// descending sorted order.
pub open spec fn row_wf(row: Seq<Candidate>, tiles: Seq<Tile>, i: int) -> bool {
    &&& row.to_multiset() == base_row(tiles, i).to_multiset()
    &&& vstd::relations::sorted_by(row, cand_le_order())
}

/// A finished table has one well-formed row per tile.
pub open spec fn table_wf(table: Seq<Vec<Candidate>>, tiles: Seq<Tile>) -> bool {
    &&& table.len() == tiles.len()
    &&& forall|i: int| 0 <= i < table.len() ==> row_wf(#[trigger] table[i]@, tiles, i)
}

/// Inserts a candidate at its place in a row kept in the total row order.
fn insert_candidate(row: &mut Vec<Candidate>, c: Candidate)
    requires
        vstd::relations::sorted_by(old(row)@, cand_le_order()),
        old(row)@.len() < usize::MAX,
    ensures
        vstd::relations::sorted_by(final(row)@, cand_le_order()),
        final(row)@.to_multiset() == old(row)@.to_multiset().insert(c),
        final(row)@.len() == old(row)@.len() + 1,
{
    let ghost orig = row@;
    let mut p: usize = 0;
    while p < row.len() && (row[p].compat > c.compat || (row[p].compat == c.compat
        && row[p].tile <= c.tile))
        invariant
            0 <= p <= row@.len(),
            row@ == orig,
            vstd::relations::sorted_by(row@, cand_le_order()),
            forall|k: int| 0 <= k < p ==> cand_le(#[trigger] row@[k], c),
        decreases row@.len() - p,
    {
        p += 1;
    }
    proof {
        assert forall|k: int| p <= k < orig.len() implies cand_le(c, #[trigger] orig[k]) by {
            assert(!cand_le(orig[p as int], c));
            assert(cand_le(c, orig[p as int]));
            if k > p {
                assert(cand_le_order()(orig[p as int], orig[k]));
            }
        }
    }
    row.insert(p, c);
    proof {
        orig.insert_ensures(p as int, c);
        assert(forall|k: int| p <= k < orig.len() ==> cand_le(c, #[trigger] orig[k]));
        assert forall|a: int, b: int| 0 <= a < b < row@.len() implies cand_le_order()(
            row@[a],
            row@[b],
        ) by {
            if a < p {
                assert(row@[a] == orig[a]);
            } else if a == p {
                assert(row@[a] == c);
            } else {
                assert(row@[a] == orig[a - 1]);
            }
            if b < p {
                assert(row@[b] == orig[b]);
            } else if b == p {
                assert(row@[b] == c);
            } else {
                assert(row@[b] == orig[b - 1]);
            }
        }
        broadcast use vstd::seq_lib::to_multiset_insert;

    }
}

/// Builds the full candidate table: one row per tile, holding every tile
/// of the list scored against the row's tile, sorted descending by score
/// with ties in index order. The row order is total, so the table is the
/// one and only table with these properties: construction is deterministic.
pub fn create_candidate_table(tiles: &Vec<Tile>) -> (table: Vec<Vec<Candidate>>)
    requires
        forall|k: int| 0 <= k < tiles@.len() ==> (#[trigger] tiles@[k]).wf(),
    ensures
        table_wf(table@, tiles@),
        spec_table(table@) == spec_canonical_table(tiles@),
{
    let n = tiles.len();
    let mut table: Vec<Vec<Candidate>> = Vec::new();
    let mut i: usize = 0;
    while i < n
        invariant
            0 <= i <= n,
            n == tiles@.len(),
            forall|k: int| 0 <= k < tiles@.len() ==> (#[trigger] tiles@[k]).wf(),
            table@.len() == i,
            forall|k: int| 0 <= k < i ==> row_wf(#[trigger] table@[k]@, tiles@, k),
        decreases n - i,
    {
        let ghost br = base_row(tiles@, i as int);
        let mut row: Vec<Candidate> = Vec::new();
        proof {
            assert(row@ =~= Seq::<Candidate>::empty());
            assert(br.take(0) =~= Seq::<Candidate>::empty());
        }
        let mut j: usize = 0;
        while j < n
            invariant
                0 <= j <= n,
                i < n,
                n == tiles@.len(),
                forall|k: int| 0 <= k < tiles@.len() ==> (#[trigger] tiles@[k]).wf(),
                br == base_row(tiles@, i as int),
                vstd::relations::sorted_by(row@, cand_le_order()),
                row@.to_multiset() == br.take(j as int).to_multiset(),
                row@.len() == j,
            decreases n - j,
        {
            let score = tiles[i].compat(&tiles[j]);
            let c = Candidate::new(j, score);
            proof {
                broadcast use vstd::seq_lib::group_to_multiset_ensures;

                assert(br[j as int] == c);
                assert(br.take(j + 1) =~= br.take(j as int).push(c));
                assert(br.take(j + 1).to_multiset() =~= br.take(j as int).to_multiset().insert(c));
                broadcast use vstd::seq_lib::to_multiset_len;

            }
            insert_candidate(&mut row, c);
            j += 1;
        }
        proof {
            assert(br.take(n as int) =~= br);
        }
        table.push(row);
        i += 1;
    }
    proof {
        lemma_table_is_canonical(table@, tiles@);
    }
    table
}

/// The one candidate row that `row_wf` allows: the base row, sorted by the
/// total row order.
pub open spec fn spec_sorted_row(tiles: Seq<Tile>, i: int) -> Seq<Candidate> {
    base_row(tiles, i).sort_by(cand_le_order())
}

/// The one candidate table that `table_wf` allows for a tile list.
pub open spec fn spec_canonical_table(tiles: Seq<Tile>) -> Seq<Seq<Candidate>> {
    Seq::new(tiles.len(), |i: int| spec_sorted_row(tiles, i))
}

/// Any well-formed table is the canonical one: the table is a function of
/// the tile list alone.
pub proof fn lemma_table_is_canonical(table: Seq<Vec<Candidate>>, tiles: Seq<Tile>)
    requires
        table_wf(table, tiles),
    ensures
        spec_table(table) == spec_canonical_table(tiles),
{
    assert forall|i: int| 0 <= i < tiles.len() implies spec_table(table)[i]
        == spec_canonical_table(tiles)[i] by {
        lemma_cand_le_total_ordering();
        base_row(tiles, i).lemma_sort_by_ensures(cand_le_order());
        vstd::seq_lib::lemma_sorted_unique(
            table[i]@,
            spec_sorted_row(tiles, i),
            cand_le_order(),
        );
    }
    assert(spec_table(table) =~= spec_canonical_table(tiles));
}

/// Determinism of the candidate table: any two tables that are well-formed
/// for the same tile list agree row by row, because each row is sorted by
/// a total order and holds a fixed multiset of candidates.
pub proof fn lemma_table_deterministic(
    t1: Seq<Vec<Candidate>>,
    t2: Seq<Vec<Candidate>>,
    tiles: Seq<Tile>,
)
    requires
        table_wf(t1, tiles),
        table_wf(t2, tiles),
    ensures
        t1.len() == t2.len(),
        forall|i: int| 0 <= i < t1.len() ==> #[trigger] t1[i]@ == t2[i]@,
{
    assert forall|i: int| 0 <= i < t1.len() implies #[trigger] t1[i]@ == t2[i]@ by {
        lemma_cand_le_total_ordering();
        vstd::seq_lib::lemma_sorted_unique(t1[i]@, t2[i]@, cand_le_order());
    }
}

/// A budget-checked cluster of tiles: the member tile indices in absorption
/// order, the seed first, beside the running union of their color sets.
pub struct Group {
    pub tiles: Vec<usize>,
    pub colors: Vec<PixelColor>,
}

/// The union of the color sets of the named member tiles.
pub open spec fn members_color_union(tiles: Seq<Tile>, members: Seq<usize>) -> Set<PixelColor>
    decreases members.len(),
{
    if members.len() == 0 {
        Set::empty()
    } else {
        members_color_union(tiles, members.drop_last()).union(
            tiles[members.last() as int].color_set(),
        )
    }
}

/// The members a group absorbed from its candidate list: everything but
/// the seed.
pub open spec fn absorbed_members(g: Group) -> Seq<usize> {
    g.tiles@.subrange(1, g.tiles@.len() as int)
}

impl Group {
    /// The running color union stays strictly sorted and within budget,
    /// and a group always holds at least its seed.
    pub open spec fn inv(self) -> bool {
        &&& sorted_colors(self.colors@)
        &&& self.colors@.len() <= MAX_COLORS
        &&& self.tiles@.len() >= 1
    }

    /// A fresh group holding only its seed tile.
    pub fn new(seed: usize, tile: &Tile) -> (g: Group)
        requires
            tile.wf(),
        ensures
            g.inv(),
            g.tiles@ == seq![seed],
            g.colors@.to_set() == tile.color_set(),
    {
        let mut ids: Vec<usize> = Vec::new();
        ids.push(seed);
        let mut colors: Vec<PixelColor> = Vec::new();
        let mut i: usize = 0;
        while i < tile.colors.len()
            invariant
                0 <= i <= tile.colors@.len(),
                colors@ == tile.colors@.take(i as int),
            decreases tile.colors@.len() - i,
        {
            colors.push(tile.colors[i]);
            proof {
                assert(tile.colors@.take(i + 1) =~= tile.colors@.take(i as int).push(
                    tile.colors@[i as int],
                ));
            }
            i += 1;
        }
        proof {
            assert(tile.colors@.take(tile.colors@.len() as int) =~= tile.colors@);
            assert(ids@ =~= seq![seed]);
        }
        Group { tiles: ids, colors }
    }

    /// Tries to absorb one more tile. Succeeds exactly when the union of
    /// the group's colors with the tile's stays within the palette budget;
    /// a failure leaves the group untouched and is a normal outcome, never
    /// an error.
    pub fn try_add(&mut self, id: usize, tile: &Tile) -> (r: Result<(), ()>)
        requires
            old(self).inv(),
            tile.wf(),
        ensures
            final(self).inv(),
            r is Ok <==> old(self).colors@.to_set().union(tile.color_set()).len() <= MAX_COLORS,
            r is Ok ==> final(self).tiles@ == old(self).tiles@.push(id) && final(self).colors@.to_set()
                == old(self).colors@.to_set().union(tile.color_set()),
            r is Err ==> *final(self) == *old(self),
    {
        let merged = color_set_union(&self.colors, &tile.colors);
        if merged.len() > MAX_COLORS {
            return Err(());
        }
        self.colors = merged;
        self.tiles.push(id);
        Ok(())
    }

    /// The member tile indices, in absorption order, the seed first.
    pub fn iter(&self) -> (r: &Vec<usize>)
        ensures
            r@ == self.tiles@,
    {
        &self.tiles
    }

    /// How many tiles the group holds.
    pub fn tile_count(&self) -> (n: usize)
        ensures
            n == self.tiles@.len(),
    {
        self.tiles.len()
    }

    /// How many distinct colors the whole group uses.
    pub fn color_count(&self) -> (n: usize)
        ensures
            sorted_colors(self.colors@) ==> n == self.colors@.to_set().len(),
    {
        proof {
            if sorted_colors(self.colors@) {
                lemma_sorted_len_is_set_len(self.colors@);
            }
        }
        self.colors.len()
    }
}

/// Everything the formation pass guarantees of one finished group: member
/// indices in range, the stored colors are exactly the union of the
/// members' color sets, that union respects the budget, and every absorbed
/// member scored above zero against the seed — so nothing at or past the
/// zero-score cut of the sorted candidate list was ever absorbed.
pub open spec fn group_ok(g: Group, tiles: Seq<Tile>) -> bool {
    &&& g.tiles@.len() >= 1
    &&& forall|k: int| 0 <= k < g.tiles@.len() ==> (#[trigger] g.tiles@[k]) < tiles.len()
    &&& g.colors@.to_set() == members_color_union(tiles, g.tiles@)
    &&& g.colors@.to_set().len() <= MAX_COLORS
    &&& forall|k: int|
        1 <= k < g.tiles@.len() ==> spec_compat(
            tiles[g.tiles@[0] as int],
            tiles[#[trigger] g.tiles@[k] as int],
        ) > 0
}

/// Whether some group of the output absorbed tile `j` from its candidate
/// list.
pub open spec fn absorbed_in(groups: Seq<Group>, j: usize) -> bool {
    exists|g: int| 0 <= g < groups.len() && absorbed_members(#[trigger] groups[g]).contains(j)
}

/// Whether tile `j` seeded some group of the output.
pub open spec fn is_seed(groups: Seq<Group>, j: usize) -> bool {
    exists|g: int| 0 <= g < groups.len() && (#[trigger] groups[g]).tiles@.len() >= 1
        && groups[g].tiles@[0] == j
}

/// No tile is absorbed twice: within one group each absorbed member is
/// distinct, and no two groups absorb the same tile.
pub open spec fn absorbed_once(groups: Seq<Group>) -> bool {
    &&& forall|g: int|
        0 <= g < groups.len() ==> absorbed_members(#[trigger] groups[g]).no_duplicates()
    &&& forall|g1: int, g2: int, j: usize|
        #![trigger absorbed_members(groups[g1]).contains(j), absorbed_members(groups[g2]).contains(j)]
        0 <= g1 < g2 < groups.len() && absorbed_members(groups[g1]).contains(j)
            ==> !absorbed_members(groups[g2]).contains(j)
}

/// The mathematical model of one group's candidate walk, from position
/// `k` onward: the member list, the accumulated color union and the claim
/// state that the walk leaves behind. A zero score ends the walk, a
/// claimed candidate is skipped, and a free candidate is absorbed exactly
/// when the union stays within budget.
pub open spec fn spec_walk(
    tiles: Seq<Tile>,
    row: Seq<Candidate>,
    k: int,
    members: Seq<usize>,
    colors: Set<PixelColor>,
    claims: Seq<bool>,
) -> (Seq<usize>, Set<PixelColor>, Seq<bool>)
    decreases row.len() - k,
    when 0 <= k <= row.len()
{
    if k >= row.len() {
        (members, colors, claims)
    } else {
        let c = row[k];
        if c.compat == 0 {
            (members, colors, claims)
        } else if !claims[c.tile as int] {
            spec_walk(tiles, row, k + 1, members, colors, claims)
        } else {
            let u = colors.union(tiles[c.tile as int].color_set());
            if u.len() <= MAX_COLORS {
                spec_walk(
                    tiles,
                    row,
                    k + 1,
                    members.push(c.tile),
                    u,
                    claims.update(c.tile as int, false),
                )
            } else {
                spec_walk(tiles, row, k + 1, members, colors, claims)
            }
        }
    }
}

/// The mathematical model of the whole formation pass from tile `i`
/// onward: each still-unclaimed tile seeds a group, whose walk over its
/// candidate row extends the group list and the claim state.
pub open spec fn spec_form_all(
    tiles: Seq<Tile>,
    table: Seq<Seq<Candidate>>,
    i: int,
    groups: Seq<Seq<usize>>,
    claims: Seq<bool>,
) -> (Seq<Seq<usize>>, Seq<bool>)
    decreases tiles.len() - i,
    when 0 <= i <= tiles.len() && table.len() == tiles.len()
{
    if i >= tiles.len() {
        (groups, claims)
    } else if !claims[i] {
        spec_form_all(tiles, table, i + 1, groups, claims)
    } else {
        let w = spec_walk(tiles, table[i], 0, seq![i as usize], tiles[i].color_set(), claims);
        spec_form_all(tiles, table, i + 1, groups.push(w.0), w.2)
    }
}

/// A table's rows as plain sequences.
pub open spec fn spec_table(table: Seq<Vec<Candidate>>) -> Seq<Seq<Candidate>> {
    table.map_values(|r: Vec<Candidate>| r@)
}

/// The groups as the plain sequences of their member tile indices.
pub open spec fn groups_view(groups: Seq<Group>) -> Seq<Seq<usize>> {
    groups.map_values(|g: Group| g.tiles@)
}

/// The grouping that formation produces from a tile list and its table:
/// each group as the sequence of its member tile indices, the seed first.
pub open spec fn spec_formation(tiles: Seq<Tile>, table: Seq<Seq<Candidate>>) -> Seq<Seq<usize>> {
    spec_form_all(tiles, table, 0, Seq::empty(), Seq::new(tiles.len(), |j: int| true)).0
}

/// Determinism of the grouping: the result is a function of the tile list
/// alone. Two runs on the same tiles, each with its own well-formed
/// candidate table, form exactly the same groups, because the table is
/// already unique and the walk is a function of its inputs.
pub proof fn lemma_grouping_deterministic(
    tiles: Seq<Tile>,
    table1: Seq<Vec<Candidate>>,
    table2: Seq<Vec<Candidate>>,
)
    requires
        table_wf(table1, tiles),
        table_wf(table2, tiles),
    ensures
        spec_formation(tiles, spec_table(table1)) == spec_formation(tiles, spec_table(table2)),
{
    lemma_table_deterministic(table1, table2, tiles);
    assert(spec_table(table1) =~= spec_table(table2));
}

/// Grows one group from seed `i`: walks the seed's candidate row in its
/// descending order, stops at the first zero score, skips tiles already
/// claimed, and absorbs each free candidate that keeps the color union
/// within budget, claiming it as it goes.
fn form_group(i: usize, tiles: &Vec<Tile>, row: &Vec<Candidate>, claims: &mut Vec<bool>) -> (g:
    Group)
    requires
        i < tiles@.len(),
        tiles@.len() <= usize::MAX,
        forall|k: int| 0 <= k < tiles@.len() ==> (#[trigger] tiles@[k]).wf(),
        row_wf(row@, tiles@, i as int),
        old(claims)@.len() == tiles@.len(),
    ensures
        final(claims)@.len() == old(claims)@.len(),
        g.inv(),
        g.tiles@[0] == i,
        group_ok(g, tiles@),
        absorbed_members(g).no_duplicates(),
        forall|k: int|
            1 <= k < g.tiles@.len() ==> old(claims)@[#[trigger] g.tiles@[k] as int] == true,
        forall|j: int|
            0 <= j < final(claims)@.len() ==> ((#[trigger] final(claims)@[j]) == false <==> (old(
                claims,
            )@[j] == false || absorbed_members(g).contains(j as usize))),
        ({
            let w = spec_walk(
                tiles@,
                row@,
                0,
                seq![i],
                tiles@[i as int].color_set(),
                old(claims)@,
            );
            g.tiles@ == w.0 && g.colors@.to_set() == w.1 && final(claims)@ == w.2
        }),
{
    let ghost n = tiles@.len();
    let ghost claims0 = claims@;
    let mut g = Group::new(i, &tiles[i]);
    proof {
        assert(absorbed_members(g) =~= Seq::<usize>::empty());
        assert(members_color_union(tiles@, Seq::<usize>::empty()) =~= Set::<PixelColor>::empty());
        assert(g.tiles@.drop_last() =~= Seq::<usize>::empty());
        assert(g.tiles@.last() == i);
        assert(members_color_union(tiles@, g.tiles@) == members_color_union(
            tiles@,
            g.tiles@.drop_last(),
        ).union(tiles@[i as int].color_set()));
        assert(g.colors@.to_set() =~= members_color_union(tiles@, g.tiles@));
        lemma_sorted_len_is_set_len(g.colors@);
    }
    let mut k: usize = 0;
    while k < row.len()
        invariant
            0 <= k <= row@.len(),
            n == tiles@.len(),
            n <= usize::MAX,
            i < n,
            forall|m: int| 0 <= m < tiles@.len() ==> (#[trigger] tiles@[m]).wf(),
            row_wf(row@, tiles@, i as int),
            claims@.len() == n,
            claims0.len() == n,
            claims0 == old(claims)@,
            g.inv(),
            g.tiles@[0] == i,
            forall|m: int| 0 <= m < g.tiles@.len() ==> (#[trigger] g.tiles@[m]) < n,
            g.colors@.to_set() == members_color_union(tiles@, g.tiles@),
            g.colors@.to_set().len() <= MAX_COLORS,
            forall|m: int|
                1 <= m < g.tiles@.len() ==> spec_compat(
                    tiles@[i as int],
                    tiles@[#[trigger] g.tiles@[m] as int],
                ) > 0,
            absorbed_members(g).no_duplicates(),
            forall|m: int|
                1 <= m < g.tiles@.len() ==> claims0[#[trigger] g.tiles@[m] as int] == true,
            forall|j: int|
                0 <= j < n ==> ((#[trigger] claims@[j]) == false <==> (claims0[j] == false
                    || absorbed_members(g).contains(j as usize))),
            spec_walk(tiles@, row@, 0, seq![i], tiles@[i as int].color_set(), claims0)
                == spec_walk(tiles@, row@, k as int, g.tiles@, g.colors@.to_set(), claims@),
        decreases row@.len() - k,
    {
        let c = row[k];
        proof {
            broadcast use vstd::seq_lib::group_to_multiset_ensures;

            assert(row@.contains(c));
            assert(row@.to_multiset().count(c) > 0);
            assert(base_row(tiles@, i as int).to_multiset().count(c) > 0);
            assert(base_row(tiles@, i as int).contains(c));
            let jj = choose|jj: int|
                0 <= jj < base_row(tiles@, i as int).len() && base_row(tiles@, i as int)[jj] == c;
            assert(c.tile == jj as usize);
            assert(jj == c.tile as int);
            assert(c.compat == spec_compat(tiles@[i as int], tiles@[jj]) as usize);
            assert(c.tile < n);
            // the true score is at most the budget, so the stored score is faithful
            lemma_sorted_len_is_set_len(tiles@[i as int].colors@);
            vstd::set_lib::lemma_len_intersect(
                tiles@[i as int].color_set(),
                tiles@[jj].color_set(),
            );
            assert(spec_compat(tiles@[i as int], tiles@[jj]) <= MAX_COLORS);
            assert(c.compat != 0 ==> spec_compat(tiles@[i as int], tiles@[c.tile as int]) > 0);
        }
        let ghost state_pre = (g.tiles@, g.colors@.to_set(), claims@);
        match c.candidacy(&claims) {
            Candidacy::End => {
                proof {
                    assert(spec_walk(tiles@, row@, k as int, state_pre.0, state_pre.1, state_pre.2)
                        == state_pre);
                }
                return g;
            },
            Candidacy::Taken => {
                proof {
                    assert(spec_walk(tiles@, row@, k as int, state_pre.0, state_pre.1, state_pre.2)
                        == spec_walk(
                        tiles@,
                        row@,
                        k + 1,
                        state_pre.0,
                        state_pre.1,
                        state_pre.2,
                    ));
                }
            },
            Candidacy::Available => {
                let ghost g_old = g;
                let result = g.try_add(c.tile, &tiles[c.tile]);
                if result.is_ok() {
                    proof {
                        assert(g.tiles@ == g_old.tiles@.push(c.tile));
                        assert(absorbed_members(g) =~= absorbed_members(g_old).push(c.tile));
                        assert(g.tiles@.drop_last() =~= g_old.tiles@);
                        assert(g.tiles@.last() == c.tile);
                        assert(members_color_union(tiles@, g.tiles@) == members_color_union(
                            tiles@,
                            g_old.tiles@,
                        ).union(tiles@[c.tile as int].color_set()));
                        lemma_sorted_len_is_set_len(g.colors@);
                        // the candidate was still present, so it was present at entry
                        // and is no duplicate
                        assert(claims@[c.tile as int] == true);
                        assert(claims0[c.tile as int] == true);
                        assert(!absorbed_members(g_old).contains(c.tile));
                    }
                    c.claim(claims);
                    proof {
                        assert forall|j: int| 0 <= j < n implies ((#[trigger] claims@[j]) == false
                            <==> (claims0[j] == false || absorbed_members(g).contains(
                            j as usize,
                        ))) by {
                            if j == c.tile as int {
                                assert(absorbed_members(g)[absorbed_members(g).len() - 1]
                                    == c.tile);
                                assert(absorbed_members(g).contains(c.tile));
                            } else {
                                if absorbed_members(g).contains(j as usize) {
                                    let m = choose|m: int|
                                        0 <= m < absorbed_members(g).len() && absorbed_members(g)[m]
                                            == j as usize;
                                    if m < absorbed_members(g_old).len() {
                                        assert(absorbed_members(g_old).contains(j as usize));
                                    } else {
                                        assert(absorbed_members(g)[m] == c.tile);
                                        assert(j == c.tile as int);
                                        assert(false);
                                    }
                                }
                                if absorbed_members(g_old).contains(j as usize) {
                                    let m0 = choose|m0: int|
                                        0 <= m0 < absorbed_members(g_old).len()
                                            && absorbed_members(g_old)[m0] == j as usize;
                                    assert(absorbed_members(g)[m0] == j as usize);
                                    assert(absorbed_members(g).contains(j as usize));
                                }
                            }
                        }
                        // the walk model takes the same absorption step
                        let u = state_pre.1.union(tiles@[c.tile as int].color_set());
                        assert(u.len() <= MAX_COLORS);
                        assert(g.tiles@ == state_pre.0.push(c.tile));
                        assert(g.colors@.to_set() == u);
                        assert(claims@ == state_pre.2.update(c.tile as int, false));
                        assert(spec_walk(
                            tiles@,
                            row@,
                            k as int,
                            state_pre.0,
                            state_pre.1,
                            state_pre.2,
                        ) == spec_walk(
                            tiles@,
                            row@,
                            k + 1,
                            state_pre.0.push(c.tile),
                            u,
                            state_pre.2.update(c.tile as int, false),
                        ));
                    }
                } else {
                    proof {
                        let u = state_pre.1.union(tiles@[c.tile as int].color_set());
                        assert(u.len() > MAX_COLORS);
                        assert(spec_walk(
                            tiles@,
                            row@,
                            k as int,
                            state_pre.0,
                            state_pre.1,
                            state_pre.2,
                        ) == spec_walk(
                            tiles@,
                            row@,
                            k + 1,
                            state_pre.0,
                            state_pre.1,
                            state_pre.2,
                        ));
                    }
                }
            },
        }
        k += 1;
    }
    g
}

/// The group-formation engine. Walks the tiles in enumeration order;
/// every tile still unclaimed seeds a group, which then absorbs what its
/// sorted candidate row allows. The output guarantees:
/// every group respects the color budget (`group_ok`); every tile appears
/// in some group, as a seed or absorbed; no tile is absorbed twice; only
/// candidates that scored above zero against their seed are absorbed; and
/// groups come in seed order. A seed is deliberately never claimed, as the
/// formation pass leaves a seed nominally present while it serves.
pub fn create_groups(tiles: &Vec<Tile>, table: &Vec<Vec<Candidate>>) -> (groups: Vec<Group>)
    requires
        forall|k: int| 0 <= k < tiles@.len() ==> (#[trigger] tiles@[k]).wf(),
        table_wf(table@, tiles@),
    ensures
        forall|g: int| 0 <= g < groups@.len() ==> group_ok(#[trigger] groups@[g], tiles@),
        forall|g: int| 0 <= g < groups@.len() ==> (#[trigger] groups@[g]).inv(),
        forall|j: usize| j < tiles@.len() ==> absorbed_in(groups@, j) || is_seed(groups@, j),
        absorbed_once(groups@),
        forall|g1: int, g2: int|
            0 <= g1 < g2 < groups@.len() ==> (#[trigger] groups@[g1]).tiles@[0]
                < (#[trigger] groups@[g2]).tiles@[0],
        groups_view(groups@) == spec_formation(tiles@, spec_table(table@)),
{
    let ghost tbl = spec_table(table@);
    let ghost claims_init = Seq::new(tiles@.len(), |j: int| true);
    let n = tiles.len();
    let mut claims: Vec<bool> = Vec::new();
    let mut t: usize = 0;
    while t < n
        invariant
            0 <= t <= n,
            claims@.len() == t,
            forall|j: int| 0 <= j < t ==> (#[trigger] claims@[j]) == true,
        decreases n - t,
    {
        claims.push(true);
        t += 1;
    }
    proof {
        assert(claims@ =~= claims_init);
    }
    let mut groups: Vec<Group> = Vec::new();
    proof {
        assert(groups_view(groups@) =~= Seq::<Seq<usize>>::empty());
    }
    let mut i: usize = 0;
    while i < n
        invariant
            0 <= i <= n,
            n == tiles@.len(),
            forall|k: int| 0 <= k < tiles@.len() ==> (#[trigger] tiles@[k]).wf(),
            table_wf(table@, tiles@),
            claims@.len() == n,
            forall|g: int| 0 <= g < groups@.len() ==> group_ok(#[trigger] groups@[g], tiles@),
            forall|g: int| 0 <= g < groups@.len() ==> (#[trigger] groups@[g]).inv(),
            forall|g: int|
                0 <= g < groups@.len() ==> (#[trigger] groups@[g]).tiles@.len() >= 1
                    && groups@[g].tiles@[0] < i,
            forall|g1: int, g2: int|
                0 <= g1 < g2 < groups@.len() ==> (#[trigger] groups@[g1]).tiles@[0]
                    < (#[trigger] groups@[g2]).tiles@[0],
            absorbed_once(groups@),
            forall|j: int|
                0 <= j < n ==> ((#[trigger] claims@[j]) == false <==> absorbed_in(
                    groups@,
                    j as usize,
                )),
            forall|j: int| 0 <= j < i && claims@[j] ==> is_seed(groups@, j as usize),
            tbl == spec_table(table@),
            claims_init == Seq::new(tiles@.len(), |j: int| true),
            spec_form_all(tiles@, tbl, 0, Seq::empty(), claims_init) == spec_form_all(
                tiles@,
                tbl,
                i as int,
                groups_view(groups@),
                claims@,
            ),
        decreases n - i,
    {
        if claims[i] {
            let ghost groups_old = groups@;
            let ghost claims_old = claims@;
            let g = form_group(i, tiles, &table[i], &mut claims);
            groups.push(g);
            proof {
                let gs = groups@;
                assert(gs == groups_old.push(g));
                // every older group is untouched
                assert(forall|k: int| 0 <= k < groups_old.len() ==> gs[k] == groups_old[k]);
                assert(gs[groups_old.len() as int] == g);
                // a member the new group absorbed was unclaimed, so no older
                // group had absorbed it
                assert forall|j: usize|
                    absorbed_members(g).contains(j) implies !absorbed_in(groups_old, j) by {
                    let m = choose|m: int|
                        0 <= m < absorbed_members(g).len() && absorbed_members(g)[m] == j;
                    assert(claims_old[g.tiles@[m + 1] as int] == true);
                }
                // the claim state now mirrors absorption over the longer list
                assert forall|j: int| 0 <= j < n implies ((#[trigger] claims@[j]) == false
                    <==> absorbed_in(gs, j as usize)) by {
                    if claims@[j] == false {
                        if claims_old[j] == false {
                            let gg = choose|gg: int|
                                0 <= gg < groups_old.len() && absorbed_members(
                                    #[trigger] groups_old[gg],
                                ).contains(j as usize);
                            assert(absorbed_members(gs[gg]).contains(j as usize));
                        } else {
                            assert(absorbed_members(g).contains(j as usize));
                            assert(absorbed_members(gs[groups_old.len() as int]).contains(
                                j as usize,
                            ));
                        }
                    }
                    if absorbed_in(gs, j as usize) {
                        let gg = choose|gg: int|
                            0 <= gg < gs.len() && absorbed_members(#[trigger] gs[gg]).contains(
                                j as usize,
                            );
                        if gg < groups_old.len() {
                            assert(absorbed_in(groups_old, j as usize));
                        }
                    }
                }
                // seeds only grow, and the new seed is the largest
                assert forall|j: int| 0 <= j < i + 1 && claims@[j] implies is_seed(
                    gs,
                    j as usize,
                ) by {
                    if j < i {
                        if claims_old[j] {
                            let gg = choose|gg: int|
                                0 <= gg < groups_old.len() && (#[trigger] groups_old[gg]).tiles@.len()
                                    >= 1 && groups_old[gg].tiles@[0] == j as usize;
                            assert(gs[gg].tiles@[0] == j as usize);
                        } else {
                            // claims only move from present to absent
                            assert(claims@[j] == false);
                        }
                    } else {
                        assert(gs[groups_old.len() as int].tiles@[0] == i);
                    }
                }
                // the model takes the same formation step
                assert(tbl[i as int] == table@[i as int]@);
                let w = spec_walk(
                    tiles@,
                    tbl[i as int],
                    0,
                    seq![i],
                    tiles@[i as int].color_set(),
                    claims_old,
                );
                assert(g.tiles@ == w.0 && claims@ == w.2);
                assert(groups_view(gs) =~= groups_view(groups_old).push(g.tiles@));
                assert(spec_form_all(tiles@, tbl, i as int, groups_view(groups_old), claims_old)
                    == spec_form_all(tiles@, tbl, i + 1, groups_view(gs), claims@));
            }
        } else {
            proof {
                assert(spec_form_all(tiles@, tbl, i as int, groups_view(groups@), claims@)
                    == spec_form_all(tiles@, tbl, i + 1, groups_view(groups@), claims@));
            }
        }
        i += 1;
    }
    proof {
        assert forall|j: usize| j < tiles@.len() implies absorbed_in(groups@, j) || is_seed(
            groups@,
            j,
        ) by {
            if claims@[j as int] == false {
                assert(absorbed_in(groups@, j));
            } else {
                assert(is_seed(groups@, j));
            }
        }
        assert(tbl.len() == tiles@.len());
        assert(spec_form_all(tiles@, tbl, n as int, groups_view(groups@), claims@) == (
            groups_view(groups@),
            claims@,
        ));
        assert(claims_init =~= Seq::new(tiles@.len(), |j: int| true));
        assert(spec_formation(tiles@, tbl) == spec_form_all(
            tiles@,
            tbl,
            0,
            Seq::empty(),
            claims_init,
        ).0);
        assert(groups_view(groups@) == spec_formation(tiles@, spec_table(table@)));
    }
    groups
}

} // verus!
