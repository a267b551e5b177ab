use solitaire_solver::card::{
    is_red, make_card, rank0_of, suit_of, CARREAU, COEUR, NUM_RANKS, NUM_SUITS, PIQUE, TREFLE,
};

#[test]
fn roundtrip() {
    for suit in 0..NUM_SUITS {
        for rank0 in 0..NUM_RANKS {
            let c = make_card(suit, rank0 as u8);
            assert_eq!(suit_of(c), suit);
            assert_eq!(rank0_of(c), rank0 as u8);
        }
    }
}

#[test]
fn colors() {
    assert!(is_red(make_card(COEUR, 0)));
    assert!(is_red(make_card(CARREAU, 5)));
    assert!(!is_red(make_card(PIQUE, 5)));
    assert!(!is_red(make_card(TREFLE, 12)));
}
