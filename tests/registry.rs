use erc165::interface_id::interface_id_from_digest;
use erc165::registry::{RegistryError, ERC165, SUPPORTS_INTERFACE_SIGNATURE};

#[test]
fn test_supports_interface() {
    let mut contract = ERC165::new();

    let sample_id = ERC165::compute_interface_id(b"sample_function()");

    assert!(!contract.supports_interface(sample_id));

    contract.add_interface(sample_id).unwrap();
    assert!(contract.supports_interface(sample_id));
}

#[test]
fn derive_is_deterministic() {
    let a = ERC165::compute_interface_id(b"transfer(address,uint256)");
    let b = ERC165::compute_interface_id(b"transfer(address,uint256)");
    assert_eq!(a, b);
    assert_eq!(ERC165::compute_interface_id(b""), ERC165::compute_interface_id(b""));
}

#[test]
fn derive_known_identifiers() {
    assert_eq!(ERC165::compute_interface_id(b"supportsInterface(bytes4)"), [0x01, 0xff, 0xc9, 0xa7]);
    assert_eq!(ERC165::compute_interface_id(b"transfer(address,uint256)"), [0xa9, 0x05, 0x9c, 0xbb]);
    assert_eq!(ERC165::compute_interface_id(b"abc"), [0x4e, 0x03, 0x65, 0x7a]);
}

#[test]
fn derive_truncates_to_four_bytes() {
    // Keccak-256 of the empty string starts with c5 d2 46 01.
    assert_eq!(ERC165::compute_interface_id(b""), [0xc5, 0xd2, 0x46, 0x01]);
    let long = vec![0x61u8; 1000];
    let id = ERC165::compute_interface_id(&long);
    assert_eq!(id.len(), 4);
    assert_ne!(id, ERC165::compute_interface_id(&long[..999]));
}

#[test]
fn id_from_digest_takes_first_four_bytes() {
    let mut digest = [0u8; 32];
    for (i, b) in digest.iter_mut().enumerate() {
        *b = (i as u8) * 3 + 1;
    }
    assert_eq!(interface_id_from_digest(&digest), [1, 4, 7, 10]);
}

#[test]
fn self_registration() {
    let contract = ERC165::new();
    let own = ERC165::compute_interface_id(SUPPORTS_INTERFACE_SIGNATURE.as_bytes());
    assert_eq!(own, ERC165::compute_interface_id(b"supports_interface([u8;4])"));
    assert!(contract.supports_interface(own));
}

#[test]
fn unknown_by_default() {
    let contract = ERC165::new();
    assert!(!contract.supports_interface([0, 0, 0, 0]));
    assert!(!contract.supports_interface([0xff, 0xff, 0xff, 0xff]));
    assert!(!contract.supports_interface(ERC165::compute_interface_id(b"supportsInterface(bytes4)")));
    assert!(!contract.supports_interface(ERC165::compute_interface_id(b"")));
}

#[test]
fn registration_effect() {
    let mut contract = ERC165::new();
    let a = ERC165::compute_interface_id(b"a()");
    let b = ERC165::compute_interface_id(b"b()");
    assert_eq!(contract.add_interface(a), Ok(()));
    assert!(contract.supports_interface(a));
    assert!(!contract.supports_interface(b));
    assert_eq!(contract.add_interface(b), Ok(()));
    assert!(contract.supports_interface(a));
    assert!(contract.supports_interface(b));
}

#[test]
fn no_double_registration() {
    let mut contract = ERC165::new();
    let id = [1, 2, 3, 4];
    assert_eq!(contract.add_interface(id), Ok(()));
    assert_eq!(contract.add_interface(id), Err(RegistryError::AlreadyRegistered));
    assert!(contract.supports_interface(id));
    assert!(!contract.supports_interface([1, 2, 3, 5]));
}

#[test]
fn self_interface_cannot_be_registered_again() {
    let mut contract = ERC165::new();
    let own = ERC165::compute_interface_id(b"supports_interface([u8;4])");
    assert_eq!(contract.add_interface(own), Err(RegistryError::AlreadyRegistered));
    assert!(contract.supports_interface(own));
}

#[test]
fn sample_function_scenario() {
    let mut contract = ERC165::new();
    let x = ERC165::compute_interface_id(b"sample_function()");
    assert!(!contract.supports_interface(x));
    assert_eq!(contract.add_interface(x), Ok(()));
    assert!(contract.supports_interface(x));
    assert_eq!(contract.add_interface(x), Err(RegistryError::AlreadyRegistered));
    assert!(contract.supports_interface(x));
}

#[test]
fn registries_do_not_share_entries() {
    let mut a = ERC165::new();
    assert_eq!(a.add_interface([1, 2, 3, 4]), Ok(()));
    let mut b = ERC165::new();
    assert!(!b.supports_interface([1, 2, 3, 4]));
    assert_eq!(b.add_interface([1, 2, 3, 4]), Ok(()));
    assert!(a.supports_interface([1, 2, 3, 4]));
}

#[test]
fn interfaces_lists_entries_in_order() {
    let mut contract = ERC165::new();
    let own = ERC165::compute_interface_id(b"supports_interface([u8;4])");
    assert_eq!(contract.interfaces(), vec![own]);
    contract.add_interface([9, 9, 9, 9]).unwrap();
    contract.add_interface([1, 1, 1, 1]).unwrap();
    assert_eq!(contract.add_interface([9, 9, 9, 9]), Err(RegistryError::AlreadyRegistered));
    assert_eq!(contract.interfaces(), vec![own, [9, 9, 9, 9], [1, 1, 1, 1]]);
}

#[test]
fn restore_rebuilds_registry() {
    let mut contract = ERC165::new();
    contract.add_interface([5, 6, 7, 8]).unwrap();
    let kept = contract.interfaces();
    let restored = ERC165::restore(&kept);
    assert_eq!(restored.interfaces(), kept);
    assert!(restored.supports_interface([5, 6, 7, 8]));
    assert!(!restored.supports_interface([5, 6, 7, 9]));
}

#[test]
fn restore_skips_repeated_ids() {
    let own = ERC165::compute_interface_id(b"supports_interface([u8;4])");
    let restored = ERC165::restore(&vec![[2, 2, 2, 2], own, [2, 2, 2, 2], [3, 3, 3, 3]]);
    assert_eq!(restored.interfaces(), vec![own, [2, 2, 2, 2], [3, 3, 3, 3]]);
    let empty = ERC165::restore(&vec![]);
    assert_eq!(empty.interfaces(), vec![own]);
}
