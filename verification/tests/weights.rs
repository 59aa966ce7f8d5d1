use phystech_radar::weights::{WeightError, WeightVector, MAX_WEIGHT, WEIGHT_UNIT};

fn ramp() -> Vec<u64> {
    (0..28).map(|i| (i as u64 + 1) * WEIGHT_UNIT).collect()
}

#[test]
fn weights_of_wrong_length_are_refused() {
    assert_eq!(WeightVector::new(Vec::new()).err(), Some(WeightError::WrongLength));
    assert_eq!(WeightVector::new(vec![1; 27]).err(), Some(WeightError::WrongLength));
    assert_eq!(WeightVector::new(vec![1; 29]).err(), Some(WeightError::WrongLength));
}

#[test]
fn weights_above_the_limit_are_refused() {
    let mut weights = vec![1; 28];
    weights[27] = MAX_WEIGHT + 1;
    assert_eq!(WeightVector::new(weights).err(), Some(WeightError::TooHeavy));
}

#[test]
fn weights_at_the_limit_are_taken() {
    let weights = WeightVector::new(vec![MAX_WEIGHT; 28]).ok().unwrap();
    assert_eq!(weights.get(0), MAX_WEIGHT);
    assert_eq!(weights.total((1 << 28) - 1), 28 * MAX_WEIGHT);
    assert_eq!(weights.mean(), MAX_WEIGHT);
}

#[test]
fn total_sums_the_members() {
    let weights = WeightVector::new(ramp()).ok().unwrap();
    assert_eq!(weights.get(4), 5 * WEIGHT_UNIT);
    assert_eq!(weights.total(0), 0);
    assert_eq!(weights.total(0b1), WEIGHT_UNIT);
    assert_eq!(weights.total(0b1011), (1 + 2 + 4) * WEIGHT_UNIT);
    assert_eq!(weights.total((1 << 28) - 1), 406 * WEIGHT_UNIT);
}

#[test]
fn total_ignores_what_lies_outside_the_universe() {
    let weights = WeightVector::new(ramp()).ok().unwrap();
    assert_eq!(weights.total(1 << 40), 0);
}

#[test]
fn mean_is_rounded_down() {
    let weights = WeightVector::new(ramp()).ok().unwrap();
    assert_eq!(weights.mean(), 145_000);
    let mut odd = vec![0; 28];
    odd[3] = 55;
    assert_eq!(WeightVector::new(odd).ok().unwrap().mean(), 1);
    assert_eq!(WeightVector::new(vec![0; 28]).ok().unwrap().mean(), 0);
}
