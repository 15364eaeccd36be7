use squads_multisig::error::ClientError;
use squads_multisig::pda::{get_multisig_pda, get_program_config_pda};
use squads_multisig::pubkey::Pubkey;
use squads_multisig::vault_transaction::Error;

#[test]
fn key_bytes_are_big_endian() {
    let k = Pubkey::new(0x0102, 0xff);
    let b = k.to_bytes();
    assert_eq!(b.len(), 32);
    assert_eq!(b[14], 1);
    assert_eq!(b[15], 2);
    assert_eq!(b[31], 0xff);
    assert!(b[..14].iter().all(|x| *x == 0));
}

#[test]
fn key_order_is_byte_order() {
    assert!(Pubkey::new(0, u128::MAX).less_than(&Pubkey::new(1, 0)));
    assert!(Pubkey::new(1, 2).less_than(&Pubkey::new(1, 3)));
    assert!(!Pubkey::new(1, 3).less_than(&Pubkey::new(1, 3)));
    assert!(Pubkey::new(1, 3).same(&Pubkey::new(1, 3)));
}

#[test]
fn program_config_address_is_derived() {
    let pid = Pubkey::new(7, 7);
    let (a, _) = get_program_config_pda(Some(&pid)).unwrap();
    assert_ne!(a, pid);
    assert_eq!(get_program_config_pda(Some(&pid)), get_program_config_pda(Some(&pid)));
    let (d, _) = get_program_config_pda(None).unwrap();
    assert_ne!(d, a);
}

#[test]
fn multisig_address_depends_on_create_key() {
    let pid = Pubkey::new(7, 7);
    let (a, _) = get_multisig_pda(&Pubkey::new(1, 1), Some(&pid)).unwrap();
    let (b, _) = get_multisig_pda(&Pubkey::new(1, 2), Some(&pid)).unwrap();
    assert_ne!(a, b);
    assert_ne!(a, Pubkey::new(1, 1));
}

#[test]
fn client_errors() {
    assert_eq!(
        ClientError::from_compile_error(Error::InvalidTransactionMessage),
        ClientError::InvalidTransactionMessage
    );
    assert_eq!(
        ClientError::from_compile_error(Error::InvalidAddressLookupTableAccount),
        ClientError::InvalidAddressLookupTableAccount
    );
    assert_eq!(ClientError::DeserializationError.message(), "Failed to deserialize account data");
}

#[test]
fn default_program_is_the_deployed_one() {
    let deployed = Pubkey::new(8649165964991101814505116735212334857, 62455522140793367951419735353813940136);
    assert_eq!(get_program_config_pda(None), get_program_config_pda(Some(&deployed)));
    let k = Pubkey::new(3, 4);
    assert_eq!(get_multisig_pda(&k, None), get_multisig_pda(&k, Some(&deployed)));
}
