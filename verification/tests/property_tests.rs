use trait_contract::{
    AssetTrait, Error, RandomSource, TraitContract, TraitOptionItem, TraitOptionValue,
};

fn seeded(seed: u64) -> RandomSource {
    RandomSource::from_seed(seed)
}

fn key(b: u8) -> Vec<u8> {
    vec![b; 32]
}

fn catalog_with_three_options(size: u32) -> TraitContract {
    let mut c = TraitContract::new();
    c.init(b"pool".to_vec(), size).unwrap();
    c.add_trait(b"t1".to_vec(), b"first trait".to_vec()).unwrap();
    c.add_option(b"t1".to_vec(), b"red".to_vec(), TraitOptionValue::Characters(b"red".to_vec()))
        .unwrap();
    c.add_option(b"t1".to_vec(), b"green".to_vec(), TraitOptionValue::Characters(b"green".to_vec()))
        .unwrap();
    c.add_option(b"t1".to_vec(), b"blue".to_vec(), TraitOptionValue::Characters(b"blue".to_vec()))
        .unwrap();
    c
}

#[test]
fn totals_sum_to_collection_size() {
    for seed in 0..20u64 {
        let mut c = catalog_with_three_options(10);
        let mut r = seeded(seed);
        assert!(c.finalize(&mut r).unwrap());
        let t = &c.get_traits()[0];
        let totals: Vec<u32> = t.options.iter().map(|o| o.total).collect();
        assert_eq!(totals.iter().sum::<u32>(), 10);
        for total in &totals {
            assert!(*total >= 1);
        }
        assert_eq!(totals[0], 10 - totals[1] - totals[2]);
    }
}

#[test]
fn available_equals_total_after_finalize() {
    let mut c = catalog_with_three_options(10);
    let mut r = seeded(3);
    c.finalize(&mut r).unwrap();
    for o in &c.get_traits()[0].options {
        assert_eq!(o.available, o.total);
    }
}

#[test]
fn draw_is_idempotent_and_byte_identical() {
    let mut c = TraitContract::new();
    let mut r = seeded(11);
    c.init(b"pool".to_vec(), 2).unwrap();
    c.add_trait(b"t1".to_vec(), b"first trait".to_vec()).unwrap();
    c.add_option(b"t1".to_vec(), b"a".to_vec(), TraitOptionValue::Numeric(1)).unwrap();
    c.add_option(b"t1".to_vec(), b"b".to_vec(), TraitOptionValue::Numeric(2)).unwrap();
    c.finalize(&mut r).unwrap();

    let first = c.draw(&mut r, key(9)).unwrap();
    for _ in 0..4 {
        let again = c.draw(&mut r, key(9)).unwrap();
        assert_eq!(again, first);
        assert_eq!(c.assigned_count(), 1);
    }
}

#[test]
fn exhausted_pool_still_serves_known_ids() {
    let mut c = TraitContract::new();
    let mut r = seeded(5);
    c.init(b"pool".to_vec(), 1).unwrap();
    c.add_trait(b"t1".to_vec(), b"only trait".to_vec()).unwrap();
    c.add_option(b"t1".to_vec(), b"only".to_vec(), TraitOptionValue::Numeric(42)).unwrap();
    c.finalize(&mut r).unwrap();

    let first = c.draw(&mut r, key(1)).unwrap();
    assert_eq!(c.draw(&mut r, key(2)), Err(Error::NoTraitsLeft));
    let again = c.draw(&mut r, key(1)).unwrap();
    assert_eq!(again, first);
    assert_eq!(c.assigned_count(), 1);
}

#[test]
fn single_option_draw_is_exact() {
    let mut c = TraitContract::new();
    let mut r = seeded(7);
    c.init(b"pool".to_vec(), 1).unwrap();
    c.add_trait(b"t1".to_vec(), b"only trait".to_vec()).unwrap();
    c.add_option(b"t1".to_vec(), b"only".to_vec(), TraitOptionValue::Numeric(42)).unwrap();
    c.finalize(&mut r).unwrap();

    let drawn = c.draw(&mut r, key(1)).unwrap();
    assert_eq!(drawn.len(), 1);
    assert_eq!(drawn[0].trait_name, b"t1".to_vec());
    assert_eq!(drawn[0].value, TraitOptionValue::Numeric(42));
}

#[test]
fn duplicate_trait_name_rejected() {
    let mut c = TraitContract::new();
    c.init(b"pool".to_vec(), 2).unwrap();
    c.add_trait(b"t1".to_vec(), b"first".to_vec()).unwrap();
    assert_eq!(c.add_trait(b"t1".to_vec(), b"second".to_vec()), Err(Error::TraitExists));
}

#[test]
fn finalize_rejects_trait_without_options() {
    let mut c = TraitContract::new();
    let mut r = seeded(2);
    c.init(b"pool".to_vec(), 1).unwrap();
    c.add_trait(b"empty".to_vec(), b"no options".to_vec()).unwrap();
    assert_eq!(c.finalize(&mut r), Err(Error::TraitNotReady));
}

#[test]
fn finalize_rejects_more_options_than_items() {
    let mut c = TraitContract::new();
    let mut r = seeded(2);
    c.init(b"pool".to_vec(), 1).unwrap();
    c.add_trait(b"t1".to_vec(), b"too many".to_vec()).unwrap();
    c.add_option(b"t1".to_vec(), b"a".to_vec(), TraitOptionValue::Numeric(1)).unwrap();
    c.add_option(b"t1".to_vec(), b"b".to_vec(), TraitOptionValue::Numeric(2)).unwrap();
    assert_eq!(c.finalize(&mut r), Err(Error::TraitNotReady));
}

#[test]
fn catalog_is_frozen_after_finalize() {
    let mut c = catalog_with_three_options(10);
    let mut r = seeded(4);
    c.finalize(&mut r).unwrap();
    assert_eq!(c.add_trait(b"t2".to_vec(), b"late".to_vec()), Err(Error::TraitNotReady));
    assert_eq!(
        c.add_option(b"t1".to_vec(), b"late".to_vec(), TraitOptionValue::NoValue),
        Err(Error::TraitNotReady)
    );
}

#[test]
fn draw_before_finalize_rejected() {
    let mut c = catalog_with_three_options(10);
    let mut r = seeded(4);
    assert_eq!(c.draw(&mut r, key(0)), Err(Error::NotFinalized));
}

#[test]
fn refinalize_changes_nothing() {
    let mut c = catalog_with_three_options(10);
    let mut r = seeded(8);
    c.finalize(&mut r).unwrap();
    let before = c.get_traits().clone();
    let drawn = c.draw(&mut r, key(3)).unwrap();
    assert_eq!(c.finalize(&mut r), Ok(true));
    assert_eq!(c.get_traits(), &before);
    assert_eq!(c.draw(&mut r, key(3)).unwrap(), drawn);
}

#[test]
fn decrement_consumes_supply_and_bottoms_out() {
    let fresh = TraitOptionItem::new(b"o1".to_vec(), Some(TraitOptionValue::Numeric(1)));
    assert_eq!(fresh.total, 0);
    assert_eq!(fresh.available, 0);
    assert_eq!(fresh.with_decremented_available(), Err(Error::OptionExhausted));

    let shared = TraitOptionItem::new(b"o2".to_vec(), None).with_distribution(2);
    assert_eq!(shared.total, 2);
    assert_eq!(shared.available, 2);
    let consumed = shared.with_decremented_available().unwrap();
    assert_eq!(consumed.available, 1);
    assert_eq!(consumed.total, 2);
}

#[test]
fn weighted_candidates_skip_exhausted_options() {
    let t = AssetTrait {
        name: b"t1".to_vec(),
        desc: b"weights".to_vec(),
        options: vec![
            TraitOptionItem {
                name: b"a".to_vec(),
                value: TraitOptionValue::Numeric(0),
                available: 0,
                total: 10,
            },
            TraitOptionItem {
                name: b"b".to_vec(),
                value: TraitOptionValue::Numeric(1),
                available: 2,
                total: 3,
            },
            TraitOptionItem {
                name: b"c".to_vec(),
                value: TraitOptionValue::Numeric(2),
                available: 1,
                total: 5,
            },
        ],
    };
    assert_eq!(t.get_available_options(), vec![1, 1, 1, 2, 2, 2, 2, 2]);
}

#[test]
fn random_number_respects_bounds() {
    let mut r = seeded(99);
    assert_eq!(trait_contract::get_random_number(&mut r, 5, 5), 5);
    for _ in 0..50 {
        let v = trait_contract::get_random_number(&mut r, 1, 6);
        assert!((1..=6).contains(&v));
    }
}

#[test]
fn seeded_sources_are_reproducible() {
    let mut a = seeded(123);
    let mut b = seeded(123);
    for _ in 0..10 {
        assert_eq!(
            trait_contract::get_random_number(&mut a, 0, 1000),
            trait_contract::get_random_number(&mut b, 0, 1000)
        );
    }
}
