use minefair_field::legacy;
use minefair_field::{Cell, Field, IconSetChoice, Judge, Risk};
use rand::seq::IndexedRandom;

#[test]
fn save_load_round_trip() {
    // S6: five reveals, then the stream restores every part of the state
    let mut rng = rand::rng();
    let mut field = Field::default();
    let _ = field.reveal_cell_first_zero((0, 0));
    for _ in 0..4 {
        let frontier = field.safe_frontier();
        if let Some(&point) = frontier.choose(&mut rng) {
            let _ = field.reveal_cell(point);
        }
    }
    field.pass_time(12345);
    let bytes = field.save();
    let loaded = Field::load(&bytes).unwrap();
    assert_eq!(loaded, field);
    assert_eq!(loaded.risks().iter(), field.risks().iter());
    assert_eq!(loaded.cells_revealed(), field.cells_revealed());
    assert_eq!(loaded.time_elapsed(), field.time_elapsed());
    assert_eq!(loaded.density(), field.density());
    assert_eq!(loaded.judge, field.judge);
}

#[test]
fn empty_field_round_trip() {
    let field = Field::new(
        Risk::new(22, 100).unwrap(),
        Judge::Local,
        true,
        Some((30, 20)),
    );
    let bytes = field.save();
    let loaded = Field::load(&bytes).unwrap();
    assert_eq!(loaded, field);
}

#[test]
fn garbage_stream_is_refused() {
    assert!(Field::load(&[1, 2, 3]).is_err());
    assert!(Field::load(&[]).is_err());
    let mut bytes = Field::default().save();
    bytes.pop();
    assert!(Field::load(&bytes).is_err());
}

#[test]
fn legacy_stream_upgrades() {
    // a legacy payload: one chunk with three revealed cells and one flag,
    // a plain probability map, and the old Kaboom policy tag
    let mut block = vec![0u8; 4096];
    block[0] = (2 << 4) | 1;
    block[1] = (0 << 4) | 1;
    block[70] = (8 << 4) | 1;
    block[71] = 2;
    let legacy_field = legacy::Field {
        chunks: vec![((0, 0), block)],
        risk_cache: vec![
            ((9, 9), Risk::new(1, 2).unwrap()),
            ((10, 9), Risk::new(0, 1).unwrap()),
        ],
        density: Risk::new(22, 100).unwrap(),
        judge: legacy::Judge::Kaboom,
        solvable: true,
    };
    let bytes = legacy_field.save();
    let loaded = Field::load(&bytes).unwrap();
    assert_eq!(loaded.cells_revealed(), 3);
    assert_eq!(loaded.risks().len(), 2);
    assert_eq!(loaded.risks().get((9, 9)), Some(Risk::new(1, 2).unwrap()));
    assert_eq!(loaded.risks().get((10, 9)), Some(Risk::new(0, 1).unwrap()));
    assert_eq!(loaded.judge, Judge::KaboomGlobal);
    assert_eq!(loaded.density(), Risk::new(22, 100).unwrap());
    assert_eq!(loaded.size, None);
    assert_eq!(loaded.time_elapsed(), 0);
    assert_eq!(loaded.get((0, 0)), Some(Cell::Revealed(2)));
    assert_eq!(loaded.get((1, 0)), Some(Cell::Revealed(0)));
    assert_eq!(loaded.get((6, 1)), Some(Cell::Revealed(8)));
    assert_eq!(loaded.get((7, 1)), Some(Cell::Hidden(true)));
}

#[test]
fn legacy_round_trip_keeps_the_stream() {
    let legacy_field = legacy::Field {
        chunks: vec![],
        risk_cache: vec![((0, -4), Risk::new(3, 7).unwrap())],
        density: Risk::new(1, 2).unwrap(),
        judge: legacy::Judge::Kind,
        solvable: false,
    };
    let bytes = legacy_field.save();
    let parsed = legacy::Field::load(&bytes).unwrap();
    assert_eq!(parsed, legacy_field);
}

#[test]
fn iconset_characters() {
    let ascii = IconSetChoice::Ascii.iconset();
    assert_eq!(ascii.safe, '_');
    assert_eq!(ascii.mine, '*');
    assert_eq!(ascii.hidden, '`');
    assert_eq!(ascii.flag, 'P');
    assert_eq!(ascii.unknown_risk, '?');
    let unicode = IconSetChoice::Unicode.iconset();
    assert_eq!(unicode.safe, '\u{2713}');
    assert_eq!(unicode.flag, '\u{2691}');
}

#[test]
fn cache_order_gives_global_best() {
    let half = Risk::new(1, 2).unwrap();
    let mut field = Field::new(half, Judge::Kind, false, None);
    let mut cache = std::mem::replace(&mut field.risk_cache, minefair_field::RiskCache::new());
    cache.insert((5, 5), Risk::new(3, 4).unwrap());
    cache.insert((4, 4), Risk::new(1, 4).unwrap());
    cache.insert((6, 6), Risk::new(1, 2).unwrap());
    assert_eq!(cache.global_best(), Risk::new(1, 4).unwrap());
    let keys = cache.keys();
    assert_eq!(keys, vec![(4, 4), (6, 6), (5, 5)]);
    cache.remove((4, 4));
    assert_eq!(cache.global_best(), Risk::new(1, 2).unwrap());
    cache.clear();
    assert_eq!(cache.global_best(), Risk::new(1, 1).unwrap());
}
