use schotten::advantage::Advantage;
use schotten::claims::Claims;
use schotten::components::{Player, Stone};

#[test]
fn advantage_test_claim() {
    let mut claims = Advantage::new();

    claims.set(Player::build(0), Stone::build(1));

    assert!(claims.get(1).is_some());
    assert_eq!(claims.get(1).unwrap(), Player::build(0));

    for i in 0..9 {
        if i == 1 {
            continue;
        }

        assert!(claims.get(i as usize).is_none());
    }
}

#[test]
fn advantage_test_claims() {
    let mut claims = Advantage::new();

    let mut stones: Vec<Stone> = Vec::new();

    claims.set_multi(Player::build(1), &stones[..]);

    for i in 0..9 {
        assert!(claims.get(i as usize).is_none());
    }

    stones.push(Stone::build(1));
    stones.push(Stone::build(5));

    claims.set_multi(Player::build(1), &stones[..]);

    assert!(claims.get(1).is_some());
    assert_eq!(claims.get(1).unwrap(), Player::build(1));

    assert!(claims.get(5).is_some());
    assert_eq!(claims.get(5).unwrap(), Player::build(1));
}

#[test]
fn claims_test_claim() {
    let mut claims = Claims::new();

    claims.claim(Player::build(0), Stone::build(1));

    assert!(claims.who_claimed(Stone::build(1)).is_some());
    assert_eq!(claims.who_claimed(Stone::build(1)).unwrap(), Player::build(0));

    for i in 0..9 {
        if i == 1 {
            continue;
        }

        assert!(claims.who_claimed(Stone::build(i)).is_none());
    }
}

#[test]
fn claims_test_claims() {
    let mut claims = Claims::new();

    let mut stones: Vec<Stone> = Vec::new();

    claims.claims(Player::build(1), &stones[..]);

    for i in 0..9 {
        assert!(claims.who_claimed(Stone::build(i)).is_none());
    }

    stones.push(Stone::build(1));
    stones.push(Stone::build(5));

    claims.claims(Player::build(1), &stones[..]);

    assert!(claims.who_claimed(Stone::build(1)).is_some());
    assert_eq!(claims.who_claimed(Stone::build(1)).unwrap(), Player::build(1));

    assert!(claims.who_claimed(Stone::build(5)).is_some());
    assert_eq!(claims.who_claimed(Stone::build(5)).unwrap(), Player::build(1));
}
