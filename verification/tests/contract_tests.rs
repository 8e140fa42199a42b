use trait_contract::{
    AssetTrait, Error, RandomSource, TraitCollection, TraitContract, TraitOptionValue,
};

fn rng() -> RandomSource {
    RandomSource::from_seed(0x5eed)
}

fn id_of(b: u8) -> Vec<u8> {
    vec![b; 32]
}

#[test]
fn init() {
    let mut c = TraitContract::new();
    assert_eq!(
        c.init(b"test".to_vec(), 10),
        Ok(TraitCollection { name: b"test".to_vec(), size: 10 })
    );
    assert_eq!(c.init(b"other".to_vec(), 1), Err(Error::AlreadyInitialized));
}

#[test]
fn finalize_uninitialized() {
    let mut c = TraitContract::new();
    let mut r = rng();
    assert_eq!(c.finalize(&mut r), Err(Error::NotInitialized));
}

#[test]
fn finalize_initialized() {
    let mut c = TraitContract::new();
    let mut r = rng();
    c.init(b"test".to_vec(), 1).unwrap();
    assert!(c.finalize(&mut r).unwrap());
}

#[test]
fn add_trait() {
    let mut c = TraitContract::new();
    let new_trait = AssetTrait {
        name: b"trait_1".to_vec(),
        desc: b"This is the 1st trait.".to_vec(),
        options: vec![],
    };
    c.init(vec![0xff], 1).unwrap();
    let traits = c.add_trait(new_trait.name.clone(), new_trait.desc.clone()).unwrap();
    assert_eq!(traits, vec![new_trait]);
}

#[test]
fn add_options() {
    let mut c = TraitContract::new();
    let mut r = rng();
    c.init(vec![0xff], 10).unwrap();
    c.add_trait(b"has_opts".to_vec(), b"a trait with options".to_vec()).unwrap();

    c.add_option(b"has_opts".to_vec(), b"option_1".to_vec(), TraitOptionValue::Numeric(1))
        .unwrap();
    c.add_option(b"has_opts".to_vec(), b"option_2".to_vec(), TraitOptionValue::Numeric(5))
        .unwrap();
    let res = c
        .add_option(b"has_opts".to_vec(), b"option_3".to_vec(), TraitOptionValue::Numeric(10))
        .unwrap();

    let updated_trait = c.get_traits().first().expect("contract must have traits");
    assert_eq!(updated_trait.options, res.options);

    assert!(c.finalize(&mut r).unwrap());

    let finalized_trait = c.get_traits().first().expect("contract must have traits");
    for o in &finalized_trait.options {
        assert!(o.available > 0);
    }
}

#[test]
fn add_option_to_non_existent_trait() {
    let mut c = TraitContract::new();
    c.init(vec![0xff], 1).unwrap();
    let res = c.add_option(b"has_opts".to_vec(), b"option_1".to_vec(), TraitOptionValue::Numeric(1));
    assert_eq!(res, Err(Error::TraitNotFound));
}

#[test]
fn duplicate_option_name() {
    let mut c = TraitContract::new();
    c.init(vec![0xff], 10).unwrap();
    c.add_trait(b"has_opts".to_vec(), b"a trait with options".to_vec()).unwrap();
    c.add_option(b"has_opts".to_vec(), b"option_1".to_vec(), TraitOptionValue::Numeric(1))
        .unwrap();
    let res = c.add_option(
        b"has_opts".to_vec(),
        b"option_1".to_vec(),
        TraitOptionValue::Characters(vec![0x00]),
    );
    assert_eq!(res, Err(Error::OptionAlreadyExistsOnTrait));
}

#[test]
fn draw() {
    let mut c = TraitContract::new();
    let mut r = rng();
    c.init(vec![0xff], 10).unwrap();
    c.add_trait(b"trait_1".to_vec(), b"a trait with options".to_vec()).unwrap();
    c.add_option(b"trait_1".to_vec(), b"option_1".to_vec(), TraitOptionValue::Numeric(1))
        .unwrap();
    c.add_option(b"trait_1".to_vec(), b"option_2".to_vec(), TraitOptionValue::Numeric(2))
        .unwrap();
    c.add_option(b"trait_1".to_vec(), b"option_3".to_vec(), TraitOptionValue::Numeric(5))
        .unwrap();

    c.add_trait(b"trait_2".to_vec(), b"a trait with options".to_vec()).unwrap();
    c.add_option(
        b"trait_2".to_vec(),
        b"option_1".to_vec(),
        TraitOptionValue::Characters(b"green".to_vec()),
    )
    .unwrap();
    c.add_option(
        b"trait_2".to_vec(),
        b"option_2".to_vec(),
        TraitOptionValue::Characters(b"red".to_vec()),
    )
    .unwrap();

    c.finalize(&mut r).unwrap();

    for i in 0..10u8 {
        let drawn = c.draw(&mut r, id_of(i)).unwrap();
        assert_eq!(drawn.len(), 2);
    }
}

#[test]
fn draw_over_limit() {
    let mut c = TraitContract::new();
    let mut r = rng();
    c.init(vec![0xff], 1).unwrap();
    c.add_trait(b"trait_1".to_vec(), b"a trait with options".to_vec()).unwrap();
    c.add_option(b"trait_1".to_vec(), b"option_1".to_vec(), TraitOptionValue::Numeric(1))
        .unwrap();
    c.finalize(&mut r).unwrap();

    assert!(c.draw(&mut r, id_of(0)).is_ok());
    assert_eq!(c.draw(&mut r, id_of(1)), Err(Error::NoTraitsLeft));
}

#[test]
fn draw_for_same_id() {
    let mut c = TraitContract::new();
    let mut r = rng();
    c.init(vec![0xff], 2).unwrap();
    c.add_trait(b"trait_1".to_vec(), b"a trait with options".to_vec()).unwrap();
    c.add_option(b"trait_1".to_vec(), b"option_1".to_vec(), TraitOptionValue::Numeric(1))
        .unwrap();
    c.add_option(b"trait_1".to_vec(), b"option_2".to_vec(), TraitOptionValue::Numeric(1))
        .unwrap();
    c.finalize(&mut r).unwrap();

    let draw_id = id_of(42);
    for _ in 0..5 {
        c.draw(&mut r, draw_id.clone()).unwrap();
    }

    assert_eq!(c.assigned_count(), 1);
    assert!(c.has_assignment(&draw_id));
}
