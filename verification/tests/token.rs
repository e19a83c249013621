use dht_node::structs::node::Endpoint;
use dht_node::structs::token::TokenAuthority;

#[test]
fn test_sign_token() {
    let mut signer = TokenAuthority::new();
    let old_secret = signer.current_secret();

    let data1 = Endpoint::new("127.0.0.1", 4444).unwrap();
    let data2 = Endpoint::new("127.0.0.2", 5555).unwrap();

    let token1 = signer.sign(&data1);
    let token2 = signer.sign(&data2);

    assert!(signer.verify(&token1, &data1));
    assert!(signer.verify(&token2, &data2));
    assert_eq!(signer.verify(&token1, &data2), false);

    signer.rotate();
    assert!(signer.verify(&token1, &data1));
    assert_eq!(signer.last_secret(), old_secret);

    signer.rotate();
    assert_eq!(signer.verify(&token1, &data1), false);
}

#[test]
fn test_token_is_the_sha1_of_the_secret_and_the_address() {
    let signer = TokenAuthority::from_secrets([7; 32], [0; 32]);
    let token = signer.sign(&Endpoint::from_octets([10, 0, 0, 5], 51413));
    assert_eq!(token, "be422915e4fabacef99b126243627d5903bab050");
    assert_eq!(
        TokenAuthority::sign_with(&Endpoint::from_octets([127, 0, 0, 1], 1), &[0; 32]),
        "563a2fc4b85437716541db56183d0876ff436a8a"
    );
}

#[test]
fn test_token_does_not_depend_on_the_port() {
    let signer = TokenAuthority::from_secrets([7; 32], [9; 32]);
    let token = signer.sign(&Endpoint::from_octets([10, 0, 0, 5], 51413));
    assert!(signer.verify(&token, &Endpoint::from_octets([10, 0, 0, 5], 1)));
    assert_eq!(signer.verify(&token, &Endpoint::from_octets([10, 0, 0, 6], 51413)), false);
}

#[test]
fn test_token_under_the_previous_secret_is_accepted() {
    let endpoint = Endpoint::from_octets([10, 0, 0, 5], 51413);
    let mut signer = TokenAuthority::from_secrets([1; 32], [2; 32]);
    let under_previous = TokenAuthority::sign_with(&endpoint, &[2; 32]);
    let under_current = signer.sign(&endpoint);
    assert!(signer.verify(&under_previous, &endpoint));

    signer.rotate_with([3; 32]);
    assert_eq!(signer.current_secret(), [3; 32]);
    assert_eq!(signer.last_secret(), [1; 32]);
    assert!(signer.verify(&under_current, &endpoint));
    assert_eq!(signer.verify(&under_previous, &endpoint), false);

    signer.rotate_with([4; 32]);
    assert_eq!(signer.verify(&under_current, &endpoint), false);
    assert_eq!(signer.verify(&"deadbeef".to_string(), &endpoint), false);
}

#[test]
fn test_new_authority_has_two_different_secrets() {
    let signer = TokenAuthority::new();
    assert_ne!(signer.current_secret(), signer.last_secret());
    assert_ne!(signer.current_secret(), [0; 32]);
}
