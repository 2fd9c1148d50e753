use tilegroup::{
    create_candidate_table, create_groups, Candidacy, Candidate, Group, PixelColor, Tile,
};

fn color(n: u8) -> PixelColor {
    PixelColor::new(n, 0, 0, 255)
}

fn tile(x: u32, y: u32, colors: &[u8]) -> Tile {
    let mut pixels: Vec<PixelColor> = Vec::new();
    for &n in colors {
        pixels.push(color(n));
    }
    Tile::from_pixel_colors(x, y, &pixels).unwrap()
}

fn group_ids(groups: &Vec<Group>) -> Vec<Vec<usize>> {
    groups.iter().map(|g| g.iter().clone()).collect()
}

#[test]
fn pixel_new_classifies_alpha() {
    assert_eq!(PixelColor::new(10, 20, 30, 0), PixelColor::Empty);
    assert_eq!(PixelColor::new(10, 20, 30, 255), PixelColor::Full(10, 20, 30));
}

#[test]
fn pixel_packed_encoding() {
    assert_eq!(PixelColor::Empty.as_u32(), 0);
    assert_eq!(PixelColor::Full(1, 2, 3).as_u32(), 0x1000000 + 0x010203);
    assert_eq!(PixelColor::Full(255, 255, 255).as_u32(), 0x1FFFFFF);
}

#[test]
fn tile_collapses_duplicate_colors() {
    let t = tile(0, 0, &[1, 1, 2, 2, 2, 3]);
    assert_eq!(t.colors().len(), 3);
}

#[test]
fn tile_rejects_over_budget_palette() {
    let mut pixels: Vec<PixelColor> = Vec::new();
    for n in 1..=17u8 {
        pixels.push(color(n));
    }
    assert!(Tile::from_pixel_colors(0, 0, &pixels).is_err());
    pixels.pop();
    assert!(Tile::from_pixel_colors(0, 0, &pixels).is_ok());
}

#[test]
fn tile_emptiness() {
    let blank = Tile::from_pixel_colors(0, 0, &vec![PixelColor::Empty]).unwrap();
    assert!(blank.is_empty());
    let mixed = Tile::from_pixel_colors(0, 0, &vec![PixelColor::Empty, color(1)]).unwrap();
    assert!(!mixed.is_empty());
    let solid = tile(0, 0, &[1]);
    assert!(!solid.is_empty());
}

#[test]
fn compat_identical_single_color() {
    // two tiles with the same one-color palette: union 1, intersection 1
    let a = tile(0, 0, &[1]);
    let b = tile(1, 0, &[1]);
    assert_eq!(a.compat(&b), 1);
}

#[test]
fn compat_symmetry_concrete() {
    let a = tile(0, 0, &[1, 2, 3, 4]);
    let b = tile(1, 0, &[3, 4, 5]);
    assert_eq!(a.compat(&b), b.compat(&a));
    assert_eq!(a.compat(&b), 2);
}

#[test]
fn compat_self_is_zero() {
    let a = tile(2, 3, &[1, 2, 3]);
    assert_eq!(a.compat(&a), 0);
    // same coordinate means the same tile, whatever the palettes say
    let twin = tile(2, 3, &[1, 2, 3]);
    assert_eq!(a.compat(&twin), 0);
}

#[test]
fn compat_zero_when_union_breaks_budget() {
    // nine colors each, sharing one: union is 17, over the budget
    let a = tile(0, 0, &[1, 2, 3, 4, 5, 6, 7, 8, 9]);
    let b = tile(1, 0, &[9, 10, 11, 12, 13, 14, 15, 16, 17]);
    assert_eq!(a.compat(&b), 0);
}

#[test]
fn candidate_comparison_is_flipped() {
    let lo = Candidate::new(0, 1);
    let hi = Candidate::new(1, 5);
    assert_eq!(lo.cmp_by_compat(&hi), std::cmp::Ordering::Greater);
    assert_eq!(hi.cmp_by_compat(&lo), std::cmp::Ordering::Less);
    assert_eq!(hi.cmp_by_compat(&hi), std::cmp::Ordering::Equal);
}

#[test]
fn candidacy_classification() {
    let claims = vec![true, false];
    assert_eq!(Candidate::new(0, 0).candidacy(&claims), Candidacy::End);
    assert_eq!(Candidate::new(1, 3).candidacy(&claims), Candidacy::Taken);
    assert_eq!(Candidate::new(0, 3).candidacy(&claims), Candidacy::Available);
}

#[test]
fn claim_marks_one_tile() {
    let mut claims = vec![true, true, true];
    Candidate::new(1, 4).claim(&mut claims);
    assert_eq!(claims, vec![true, false, true]);
}

#[test]
fn group_try_add_respects_budget() {
    let a = tile(0, 0, &[1, 2, 3, 4, 5, 6, 7, 8]);
    let b = tile(1, 0, &[1, 2, 3, 4, 5, 6, 7, 8, 9, 10, 11, 12, 13, 14, 15, 16]);
    let c = tile(2, 0, &[1, 9, 10, 11, 12, 13, 14, 15, 16]);
    let mut g = Group::new(0, &a);
    assert_eq!(g.tile_count(), 1);
    assert_eq!(g.color_count(), 8);
    // a ∪ b has 16 colors: fits exactly
    assert!(g.try_add(1, &b).is_ok());
    assert_eq!(g.tile_count(), 2);
    assert_eq!(g.color_count(), 16);
    // adding anything with a new color now fails and leaves the group alone
    let d = tile(3, 0, &[17]);
    assert!(g.try_add(3, &d).is_err());
    assert_eq!(g.tile_count(), 2);
    assert_eq!(g.color_count(), 16);
    // but a tile whose colors are already covered still fits
    assert!(g.try_add(2, &c).is_ok());
    assert_eq!(g.tile_count(), 3);
    assert_eq!(g.iter(), &vec![0, 1, 2]);
}

#[test]
fn candidate_table_rows_sorted_descending() {
    let a = tile(0, 0, &[1, 2, 3, 4, 5, 6, 7, 8]);
    let b = tile(1, 0, &[1, 2, 3, 4, 5, 9, 10, 11]);
    let c = tile(2, 0, &[6, 7, 8, 20, 21, 22, 23, 24, 25, 26, 27]);
    let tiles = vec![a, b, c];
    let table = create_candidate_table(&tiles);
    assert_eq!(table.len(), 3);
    // row of tile 0: b scores 5, c scores 3, the tile itself 0
    assert_eq!(table[0], vec![Candidate::new(1, 5), Candidate::new(2, 3), Candidate::new(0, 0)]);
    // row of tile 1: a scores 5, b itself and c score 0, ties in index order
    assert_eq!(table[1], vec![Candidate::new(0, 5), Candidate::new(1, 0), Candidate::new(2, 0)]);
    assert_eq!(table[2], vec![Candidate::new(0, 3), Candidate::new(1, 0), Candidate::new(2, 0)]);
}

#[test]
fn identical_single_color_tiles_group_together() {
    let tiles = vec![tile(0, 0, &[1]), tile(1, 0, &[1])];
    let table = create_candidate_table(&tiles);
    let groups = create_groups(&tiles, &table);
    assert_eq!(group_ids(&groups), vec![vec![0, 1]]);
}

#[test]
fn infeasible_pair_never_grouped() {
    // union of 17 colors: the two tiles must never share a group
    let tiles = vec![
        tile(0, 0, &[1, 2, 3, 4, 5, 6, 7, 8, 9]),
        tile(1, 0, &[9, 10, 11, 12, 13, 14, 15, 16, 17]),
    ];
    let table = create_candidate_table(&tiles);
    let groups = create_groups(&tiles, &table);
    assert_eq!(group_ids(&groups), vec![vec![0], vec![1]]);
}

#[test]
fn absorption_checks_combined_palette() {
    // b scores 5 with a, c scores 3 with a; b and c together break any budget.
    // Seeding from a absorbs b first; c is then checked against a ∪ b and
    // no longer fits, though it would have fit against a alone.
    let a = tile(0, 0, &[1, 2, 3, 4, 5, 6, 7, 8]);
    let b = tile(1, 0, &[1, 2, 3, 4, 5, 9, 10, 11]);
    let c = tile(2, 0, &[6, 7, 8, 20, 21, 22, 23, 24, 25, 26, 27]);
    assert_eq!(a.compat(&b), 5);
    assert_eq!(a.compat(&c), 3);
    assert_eq!(b.compat(&c), 0);
    let tiles = vec![a, b, c];
    let table = create_candidate_table(&tiles);
    let groups = create_groups(&tiles, &table);
    // the first group holds a and b only: c no longer fits their union.
    // c then seeds the second group, and since a seed is never claimed,
    // that group absorbs the still-available a (their union is 16).
    assert_eq!(group_ids(&groups), vec![vec![0, 1], vec![2, 0]]);
    assert_eq!(groups[0].color_count(), 11);
    assert_eq!(groups[1].color_count(), 16);
}

#[test]
fn full_palette_tile_stays_single() {
    // a tile already at the budget, with no partner whose union fits
    let full = tile(
        0,
        0,
        &[1, 2, 3, 4, 5, 6, 7, 8, 9, 10, 11, 12, 13, 14, 15, 16],
    );
    let other = tile(1, 0, &[17]);
    let tiles = vec![full, other];
    let table = create_candidate_table(&tiles);
    let groups = create_groups(&tiles, &table);
    assert_eq!(group_ids(&groups), vec![vec![0], vec![1]]);
    assert_eq!(groups[0].tile_count(), 1);
    assert_eq!(groups[0].color_count(), 16);
}

#[test]
fn zero_score_ends_scan_even_when_budget_would_fit() {
    // disjoint one-color palettes: the union fits easily, but the shared
    // count is zero, so the sorted scan ends before absorbing anything
    let tiles = vec![tile(0, 0, &[1]), tile(1, 0, &[2])];
    let table = create_candidate_table(&tiles);
    let groups = create_groups(&tiles, &table);
    assert_eq!(group_ids(&groups), vec![vec![0], vec![1]]);
}

#[test]
fn two_runs_produce_identical_groupings() {
    let mk = || {
        vec![
            tile(0, 0, &[1, 2, 3, 4, 5, 6, 7, 8]),
            tile(1, 0, &[1, 2, 3, 4, 5, 9, 10, 11]),
            tile(0, 1, &[6, 7, 8, 20, 21, 22, 23, 24, 25, 26, 27]),
            tile(1, 1, &[1, 2]),
            tile(2, 1, &[20, 21, 22]),
        ]
    };
    let tiles1 = mk();
    let tiles2 = mk();
    let table1 = create_candidate_table(&tiles1);
    let table2 = create_candidate_table(&tiles2);
    assert_eq!(table1, table2);
    let groups1 = create_groups(&tiles1, &table1);
    let groups2 = create_groups(&tiles2, &table2);
    assert_eq!(group_ids(&groups1), group_ids(&groups2));
}

#[test]
fn every_tile_lands_in_a_group_within_budget() {
    let mut tiles: Vec<Tile> = Vec::new();
    for i in 0..12u8 {
        tiles.push(tile(i as u32, 0, &[i + 1, i + 2, i + 3, 1]));
    }
    let table = create_candidate_table(&tiles);
    let groups = create_groups(&tiles, &table);
    let mut seen = vec![0usize; tiles.len()];
    for g in &groups {
        assert!(g.color_count() <= 16);
        for &id in g.iter() {
            seen[id] += 1;
        }
    }
    for &count in &seen {
        assert!(count >= 1);
    }
}
