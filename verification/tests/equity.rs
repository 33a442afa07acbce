use pkcore::casino::equity::table_equity::TableEquity as PotEquity;
use pkcore::casino::table::seats::seat_equity::SeatEquity;
use pkcore::casino::table::seats::seatbit::Seatbit;
use pkcore::casino::table::seats::table_equity::TableEquity as SeatEquities;

const NONE: Seatbit = Seatbit(0);
const SEAT_0: Seatbit = Seatbit(1);
const SEAT_1: Seatbit = Seatbit(1 << 1);
const SEAT_2: Seatbit = Seatbit(1 << 2);
const SEAT_3: Seatbit = Seatbit(1 << 3);
const SEAT_4: Seatbit = Seatbit(1 << 4);
const SEAT_5: Seatbit = Seatbit(1 << 5);
const SEAT_7: Seatbit = Seatbit(1 << 7);
const SEAT_9: Seatbit = Seatbit(1 << 9);

fn four_mixed() -> Vec<SeatEquity> {
    vec![
        SeatEquity::new(5_000, SEAT_2),
        SeatEquity::new(10_000, SEAT_0),
        SeatEquity::new(5_000, SEAT_1),
        SeatEquity::new(9_000, SEAT_3),
    ]
}

#[test]
fn table_equity_test_seat_equities_new_sorts_and_consolidates_matching_chip_counts() {
    let expected = vec![
        SeatEquity::new(10_000, SEAT_0),
        SeatEquity::new(9_000, SEAT_3),
        SeatEquity::new(5_000, SEAT_1 | SEAT_2),
    ];
    assert_eq!(PotEquity::new(four_mixed()).equities(), &expected);
    assert_eq!(SeatEquities::new(four_mixed()).equities(), &expected);
}

#[test]
fn table_equity_test_seat_equities_add_inserts_and_resorts_collection() {
    let expected = vec![
        SeatEquity::new(10_000, SEAT_0 | SEAT_3),
        SeatEquity::new(9_000, SEAT_2),
        SeatEquity::new(5_000, SEAT_1),
    ];
    let mut equities = PotEquity::new(vec![SeatEquity::new(5_000, SEAT_1), SeatEquity::new(10_000, SEAT_0)]);
    equities.add(SeatEquity::new(9_000, SEAT_2));
    equities.add(SeatEquity::new(10_000, SEAT_3));
    assert_eq!(equities.equities(), &expected);

    let mut equities = SeatEquities::new(vec![SeatEquity::new(5_000, SEAT_1), SeatEquity::new(10_000, SEAT_0)]);
    equities.add(SeatEquity::new(9_000, SEAT_2));
    equities.add(SeatEquity::new(10_000, SEAT_3));
    assert_eq!(equities.equities(), &expected);
}

#[test]
fn table_equity_test_seat_equities_equities_and_equities_mut_expose_underlying_vector() {
    let expected = vec![SeatEquity::new(10_000, SEAT_0), SeatEquity::new(1_000, SEAT_1)];

    let mut equities = PotEquity::new(vec![SeatEquity::new(10_000, SEAT_0)]);
    assert_eq!(equities.equities(), &vec![SeatEquity::new(10_000, SEAT_0)]);
    equities.equities_mut().push(SeatEquity::new(1_000, SEAT_1));
    assert_eq!(equities.equities(), &expected);

    let mut equities = SeatEquities::new(vec![SeatEquity::new(10_000, SEAT_0)]);
    assert_eq!(equities.equities(), &vec![SeatEquity::new(10_000, SEAT_0)]);
    equities.equities_mut().push(SeatEquity::new(1_000, SEAT_1));
    assert_eq!(equities.equities(), &expected);
}

fn four_pairs() -> Vec<SeatEquity> {
    vec![
        SeatEquity::new(10_000, SEAT_0),
        SeatEquity::new(5_000, SEAT_1),
        SeatEquity::new(10_000, SEAT_3),
        SeatEquity::new(5_000, SEAT_2),
    ]
}

#[test]
fn table_equity_test_seat_equities_consolidate_merges_matching_chip_counts() {
    let expected = vec![SeatEquity::new(10_000, SEAT_0 | SEAT_3), SeatEquity::new(5_000, SEAT_1 | SEAT_2)];
    let mut equities = PotEquity::new(four_pairs());
    equities.consolidate();
    assert_eq!(equities.equities(), &expected);
    let mut equities = SeatEquities::new(four_pairs());
    equities.consolidate();
    assert_eq!(equities.equities(), &expected);
}

#[test]
fn test_seat_equities_consolidate_sorts_before_merging() {
    let expected = vec![SeatEquity::new(10_000, SEAT_0 | SEAT_3), SeatEquity::new(5_000, SEAT_1 | SEAT_2)];
    let unsorted = [
        SeatEquity::new(5_000, SEAT_2),
        SeatEquity::new(10_000, SEAT_3),
        SeatEquity::new(10_000, SEAT_0),
        SeatEquity::new(5_000, SEAT_1),
    ];
    let mut equities = PotEquity::default();
    equities.equities_mut().extend(unsorted);
    equities.consolidate();
    assert_eq!(equities.equities(), &expected);
    let mut equities = SeatEquities::default();
    equities.equities_mut().extend(unsorted);
    equities.consolidate();
    assert_eq!(equities.equities(), &expected);
}

#[test]
fn table_equity_test_seat_equities_consolidate_leaves_single_entry_unchanged() {
    let mut equities = PotEquity::new(vec![SeatEquity::new(10_000, SEAT_0)]);
    equities.consolidate();
    assert_eq!(equities.equities(), &vec![SeatEquity::new(10_000, SEAT_0)]);
    let mut equities = SeatEquities::new(vec![SeatEquity::new(10_000, SEAT_0)]);
    equities.consolidate();
    assert_eq!(equities.equities(), &vec![SeatEquity::new(10_000, SEAT_0)]);
}

fn three_levels() -> Vec<SeatEquity> {
    vec![SeatEquity::new(10_000, SEAT_0), SeatEquity::new(7_000, SEAT_1), SeatEquity::new(3_000, SEAT_2)]
}

#[test]
fn table_equity_player_ranking() {
    let equities = PotEquity::new(three_levels());
    assert_eq!(equities.player_ranking(0), Some(0));
    assert_eq!(equities.player_ranking(1), Some(1));
    assert_eq!(equities.player_ranking(2), Some(2));
    let equities = SeatEquities::new(three_levels());
    assert_eq!(equities.player_ranking(0), Some(0));
    assert_eq!(equities.player_ranking(1), Some(1));
    assert_eq!(equities.player_ranking(2), Some(2));
}

#[test]
fn table_equity_player_ranking_returns_none_for_absent_seat() {
    let two = vec![SeatEquity::new(10_000, SEAT_0), SeatEquity::new(7_000, SEAT_1)];
    assert_eq!(PotEquity::new(two.clone()).player_ranking(5), None);
    assert_eq!(SeatEquities::new(two).player_ranking(5), None);
}

#[test]
fn player_ranking_returns_none_for_empty_collection() {
    assert_eq!(PotEquity::default().player_ranking(0), None);
    assert_eq!(SeatEquities::default().player_ranking(0), None);
}

#[test]
fn table_equity_player_ranking_tied_seats_share_the_same_rank() {
    let tied = vec![SeatEquity::new(10_000, SEAT_0), SeatEquity::new(7_000, SEAT_1), SeatEquity::new(7_000, SEAT_2)];
    let equities = PotEquity::new(tied.clone());
    assert_eq!(equities.player_ranking(0), Some(0));
    assert_eq!(equities.player_ranking(1), Some(1));
    assert_eq!(equities.player_ranking(2), Some(1));
    let equities = SeatEquities::new(tied);
    assert_eq!(equities.player_ranking(0), Some(0));
    assert_eq!(equities.player_ranking(1), Some(1));
    assert_eq!(equities.player_ranking(2), Some(1));
}

fn tied_top() -> Vec<SeatEquity> {
    vec![SeatEquity::new(10_000, SEAT_0), SeatEquity::new(10_000, SEAT_3), SeatEquity::new(5_000, SEAT_2)]
}

#[test]
fn seat_equities_ceiling_returns_top_chips_when_top_entry_is_tied() {
    assert_eq!(PotEquity::new(tied_top()).ceiling(), 10_000);
}

#[test]
fn test_seat_equities_ceiling_returns_top_chips_when_top_entry_is_tied() {
    assert_eq!(SeatEquities::new(tied_top()).ceiling(), 10_000);
}

#[test]
fn seat_equities_ceiling_returns_second_chips_when_top_is_not_tied() {
    assert_eq!(PotEquity::new(three_levels()).ceiling(), 7_000);
}

#[test]
fn test_seat_equities_ceiling_returns_second_chips_when_top_is_not_tied() {
    assert_eq!(SeatEquities::new(three_levels()).ceiling(), 7_000);
}

#[test]
fn seat_equities_ceiling_returns_zero_for_single_or_empty_collection() {
    assert_eq!(PotEquity::default().ceiling(), 0);
    assert_eq!(PotEquity::new(vec![SeatEquity::new(10_000, SEAT_0)]).ceiling(), 0);
    assert_eq!(SeatEquities::default().ceiling(), 0);
    assert_eq!(SeatEquities::new(vec![SeatEquity::new(10_000, SEAT_0)]).ceiling(), 0);
}

#[test]
fn seat_equities_ceiling_returns_second_chips_when_top_is_not_tied_with_blinds() {
    let equities = PotEquity::new(vec![
        SeatEquity::new(10_000, SEAT_0),
        SeatEquity::new(7_000, SEAT_1),
        SeatEquity::new(3_000, SEAT_2),
        SeatEquity::new(50, SEAT_3),
        SeatEquity::new(100, SEAT_3),
    ]);
    assert_eq!(equities.ceiling(), 7_000);
}

fn with_empties() -> Vec<SeatEquity> {
    vec![
        SeatEquity::new(9_000, SEAT_0),
        SeatEquity::new(9_000, SEAT_4),
        SeatEquity::new(5_000, SEAT_3),
        SeatEquity::new(50, NONE),
        SeatEquity::new(100, NONE),
    ]
}

#[test]
fn consolidate__with_empties() {
    let equities = PotEquity::new(with_empties());
    assert!(equities.equities().iter().any(|e| e.seats == (SEAT_0 | SEAT_4) && e.chips == 9_000));
    let none_chips: usize = equities.equities().iter().filter(|e| e.seats == NONE).map(|e| e.chips).sum();
    assert_eq!(none_chips, 150);
}

#[test]
fn consolidate__equal_none_entries_are_summed_not_merged() {
    let equities = PotEquity::new(vec![
        SeatEquity::new(7_296, SEAT_2),
        SeatEquity::new(7_296, SEAT_7),
        SeatEquity::new(1_300, SEAT_5),
        SeatEquity::new(100, NONE),
        SeatEquity::new(100, NONE),
    ]);
    let none_chips: usize = equities.equities().iter().filter(|e| e.seats == NONE).map(|e| e.chips).sum();
    assert_eq!(none_chips, 200, "two equal NONE entries must sum to 200, not be merged to 100");
    let (winnings, _) = equities.winnings(SEAT_2).unwrap();
    assert_eq!(winnings, 16_092);
}

#[test]
fn winnings() {
    let equities = PotEquity::new(with_empties());
    let (winnings, remaining_equity) = equities.winnings(SEAT_4).unwrap();
    assert_eq!(winnings, 23_150);
    assert_eq!(remaining_equity, PotEquity::default());
}

#[test]
fn winnings__1down() {
    let equities = PotEquity::new(with_empties());
    let sidepot = PotEquity::new(vec![SeatEquity::new(4_000, SEAT_0), SeatEquity::new(4_000, SEAT_4)]);
    let (winnings, remaining_equity) = equities.winnings(SEAT_3).unwrap();
    assert_eq!(winnings, 15_150);
    assert_eq!(remaining_equity, sidepot);
    let (side_winnings, no_equity) = remaining_equity.winnings(SEAT_0).unwrap();
    assert_eq!(side_winnings, 8_000);
    assert_eq!(no_equity, PotEquity::default());
    assert_eq!(None, equities.winnings(SEAT_9));
    assert_eq!(None, remaining_equity.winnings(SEAT_9));
    assert_eq!(None, no_equity.winnings(SEAT_9));
}

#[test]
fn winnings__none_exceeds_winner_chip_level() {
    let equities = PotEquity::new(vec![
        SeatEquity::new(100, NONE),
        SeatEquity::new(80, SEAT_1),
        SeatEquity::new(70, SEAT_0),
        SeatEquity::new(30, SEAT_3),
    ]);
    let (won, remaining) = equities.winnings(SEAT_1).unwrap();
    assert_eq!(won, 260);
    assert_eq!(remaining, PotEquity::new(vec![SeatEquity::new(20, NONE)]));
}

#[test]
fn winnings__active_over_contributor_excess_remains() {
    let equities = PotEquity::new(vec![SeatEquity::new(1_000, SEAT_0), SeatEquity::new(200, SEAT_1)]);
    let (won, remaining) = equities.winnings(SEAT_1).unwrap();
    assert_eq!(won, 400);
    assert_eq!(remaining, PotEquity::new(vec![SeatEquity::new(800, SEAT_0)]));
}

#[test]
fn winnings_take_plus_leftover_is_the_whole_weight() {
    // The payout law on concrete values: what the winner takes plus what is
    // left equals all the chips the entries stand for.
    let equities = PotEquity::new(with_empties());
    let (won, rest) = equities.winnings(SEAT_3).unwrap();
    let left: usize = rest.equities().iter().map(|e| e.chips * (e.seats.0.count_ones().max(1) as usize)).sum();
    assert_eq!(9_000 + 9_000 + 5_000 + 50 + 100, won + left);
}

#[test]
fn test_seat_equities_new_sorts_and_consolidates_matching_chip_counts() {
    let equities = SeatEquities::new(vec![
        SeatEquity::new(5_000, SEAT_2),
        SeatEquity::new(10_000, SEAT_0),
        SeatEquity::new(5_000, SEAT_1),
        SeatEquity::new(9_000, SEAT_3),
    ]);
    assert_eq!(
        equities.equities(),
        &vec![
            SeatEquity::new(10_000, SEAT_0),
            SeatEquity::new(9_000, SEAT_3),
            SeatEquity::new(5_000, SEAT_1 | SEAT_2),
        ]
    );
}

#[test]
fn test_seat_equities_add_inserts_and_resorts_collection() {
    let mut equities = SeatEquities::new(vec![SeatEquity::new(5_000, SEAT_1), SeatEquity::new(10_000, SEAT_0)]);
    equities.add(SeatEquity::new(9_000, SEAT_2));
    equities.add(SeatEquity::new(10_000, SEAT_3));
    assert_eq!(
        equities.equities(),
        &vec![
            SeatEquity::new(10_000, SEAT_0 | SEAT_3),
            SeatEquity::new(9_000, SEAT_2),
            SeatEquity::new(5_000, SEAT_1),
        ]
    );
}

#[test]
fn test_seat_equities_equities_and_equities_mut_expose_underlying_vector() {
    let mut equities = SeatEquities::new(vec![SeatEquity::new(10_000, SEAT_0)]);
    assert_eq!(equities.equities(), &vec![SeatEquity::new(10_000, SEAT_0)]);
    equities.equities_mut().push(SeatEquity::new(1_000, SEAT_1));
    assert_eq!(
        equities.equities(),
        &vec![SeatEquity::new(10_000, SEAT_0), SeatEquity::new(1_000, SEAT_1)]
    );
}

#[test]
fn test_seat_equities_consolidate_merges_matching_chip_counts() {
    let mut equities = SeatEquities::new(vec![
        SeatEquity::new(10_000, SEAT_0),
        SeatEquity::new(5_000, SEAT_1),
        SeatEquity::new(10_000, SEAT_3),
        SeatEquity::new(5_000, SEAT_2),
    ]);
    equities.consolidate();
    assert_eq!(
        equities.equities(),
        &vec![SeatEquity::new(10_000, SEAT_0 | SEAT_3), SeatEquity::new(5_000, SEAT_1 | SEAT_2)]
    );
}

#[test]
fn test_seat_equities_consolidate_leaves_single_entry_unchanged() {
    let mut equities = SeatEquities::new(vec![SeatEquity::new(10_000, SEAT_0)]);
    equities.consolidate();
    assert_eq!(equities.equities(), &vec![SeatEquity::new(10_000, SEAT_0)]);
}

#[test]
fn player_ranking() {
    let equities = SeatEquities::new(vec![
        SeatEquity::new(10_000, SEAT_0),
        SeatEquity::new(7_000, SEAT_1),
        SeatEquity::new(3_000, SEAT_2),
    ]);
    assert_eq!(equities.player_ranking(0), Some(0));
    assert_eq!(equities.player_ranking(1), Some(1));
    assert_eq!(equities.player_ranking(2), Some(2));
}

#[test]
fn player_ranking_returns_none_for_absent_seat() {
    let equities = SeatEquities::new(vec![SeatEquity::new(10_000, SEAT_0), SeatEquity::new(7_000, SEAT_1)]);
    assert_eq!(equities.player_ranking(5), None);
}

#[test]
fn player_ranking_tied_seats_share_the_same_rank() {
    let equities = SeatEquities::new(vec![
        SeatEquity::new(10_000, SEAT_0),
        SeatEquity::new(7_000, SEAT_1),
        SeatEquity::new(7_000, SEAT_2),
    ]);
    assert_eq!(equities.player_ranking(0), Some(0));
    assert_eq!(equities.player_ranking(1), Some(1));
    assert_eq!(equities.player_ranking(2), Some(1));
}
