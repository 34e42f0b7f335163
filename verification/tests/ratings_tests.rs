use beatmap_tools::ratings::ModifierSet;
use beatmap_tools::ratings::RatingEntry;
use beatmap_tools::ratings::missing_modsets;
use beatmap_tools::ratings::record_ratings;

fn mods(bits: u32) -> ModifierSet {
    ModifierSet { bits }
}

#[test]
fn missing_lists_unrated_wanted_sets_in_order() {
    let wanted = vec![mods(0), mods(16), mods(64), mods(80)];
    let ratings = vec![RatingEntry { mods: mods(16), value: 41 }];
    let missing = missing_modsets(&wanted, &ratings);
    assert_eq!(missing.len(), 3);
    assert_eq!(missing[0], mods(0));
    assert_eq!(missing[1], mods(64));
    assert_eq!(missing[2], mods(80));
}

#[test]
fn fully_rated_entry_is_skipped() {
    let wanted = vec![mods(0), mods(16)];
    let ratings = vec![
        RatingEntry { mods: mods(16), value: 1 },
        RatingEntry { mods: mods(0), value: 2 },
    ];
    assert_eq!(missing_modsets(&wanted, &ratings).len(), 0);
}

#[test]
fn fill_covers_exactly_the_wanted_sets() {
    // A chart with nothing cached: after recording ratings for the missing
    // sets, the rated key set equals the wanted set, and a second pass has
    // nothing left to compute.
    let wanted = vec![mods(0), mods(16), mods(64), mods(80)];
    let mut ratings: Vec<RatingEntry> = Vec::new();
    let missing = missing_modsets(&wanted, &ratings);
    assert_eq!(missing.len(), 4);
    let computed: Vec<RatingEntry> =
        missing.iter().map(|m| RatingEntry { mods: *m, value: 100 + m.bits as u64 }).collect();
    record_ratings(&mut ratings, &computed);
    assert_eq!(ratings.len(), 4);
    for w in &wanted {
        assert!(ratings.iter().any(|r| r.mods == *w));
    }
    assert_eq!(missing_modsets(&wanted, &ratings).len(), 0);
}

#[test]
fn fill_keeps_foreign_ratings() {
    // Ratings cached for sets nobody asked about stay untouched.
    let wanted = vec![mods(0)];
    let mut ratings = vec![RatingEntry { mods: mods(512), value: 7 }];
    let missing = missing_modsets(&wanted, &ratings);
    assert_eq!(missing.len(), 1);
    let computed = vec![RatingEntry { mods: mods(0), value: 9 }];
    record_ratings(&mut ratings, &computed);
    assert_eq!(ratings.len(), 2);
    assert_eq!(ratings[0], RatingEntry { mods: mods(512), value: 7 });
    assert_eq!(ratings[1], RatingEntry { mods: mods(0), value: 9 });
}
