use spinifex_unsigned_varint::uvarint::{DecodeError, EncodeError, UVarInt};

#[test]
fn test_to_bytes_spec1() -> Result<(), EncodeError> {
    let number: u128 = 1;
    let actual_uvarint: UVarInt = UVarInt::new(number);

    let actual_bytes: Vec<u8> = actual_uvarint.to_bytes()?;
    let expected_bytes: Vec<u8> = vec![1];

    assert_eq!(actual_bytes, expected_bytes);
    Ok(())
}

#[test]
fn test_to_bytes_spec2() -> Result<(), EncodeError> {
    let number: u128 = 127;
    let actual_uvarint: UVarInt = UVarInt::new(number);

    let actual_bytes: Vec<u8> = actual_uvarint.to_bytes()?;
    let expected_bytes: Vec<u8> = vec![127];

    assert_eq!(actual_bytes, expected_bytes);
    Ok(())
}

#[test]
fn test_to_bytes_spec3() -> Result<(), EncodeError> {
    let number: u128 = 128;
    let actual_uvarint: UVarInt = UVarInt::new(number);

    let actual_bytes: Vec<u8> = actual_uvarint.to_bytes()?;
    let expected_bytes: Vec<u8> = vec![128, 1];

    assert_eq!(actual_bytes, expected_bytes);
    Ok(())
}

#[test]
fn test_to_bytes_spec4() -> Result<(), EncodeError> {
    let number: u128 = 255;
    let actual_uvarint: UVarInt = UVarInt::new(number);

    let actual_bytes: Vec<u8> = actual_uvarint.to_bytes()?;
    let expected_bytes: Vec<u8> = vec![255, 1];

    assert_eq!(actual_bytes, expected_bytes);
    Ok(())
}

#[test]
fn test_to_bytes_spec5() -> Result<(), EncodeError> {
    let number: u128 = 300;
    let actual_uvarint: UVarInt = UVarInt::new(number);

    let actual_bytes: Vec<u8> = actual_uvarint.to_bytes()?;
    let expected_bytes: Vec<u8> = vec![172, 2];

    assert_eq!(actual_bytes, expected_bytes);
    Ok(())
}

#[test]
fn test_to_bytes_spec6() -> Result<(), EncodeError> {
    let number: u128 = 16384;
    let actual_uvarint: UVarInt = UVarInt::new(number);

    let actual_bytes: Vec<u8> = actual_uvarint.to_bytes()?;
    let expected_bytes: Vec<u8> = vec![128, 128, 1];

    assert_eq!(actual_bytes, expected_bytes);
    Ok(())
}

#[test]
fn test_from_bytes_spec1() -> Result<(), DecodeError> {
    let number: u128 = 1;
    let bytes: Vec<u8> = vec![1];

    let actual_uvarint: UVarInt = UVarInt::from_bytes(bytes)?;
    let expected_uvarint: UVarInt = UVarInt::new(number);

    assert_eq!(actual_uvarint, expected_uvarint);
    Ok(())
}

#[test]
fn test_from_bytes_spec2() -> Result<(), DecodeError> {
    let number: u128 = 127;
    let bytes: Vec<u8> = vec![127];

    let actual_uvarint: UVarInt = UVarInt::from_bytes(bytes)?;
    let expected_uvarint: UVarInt = UVarInt::new(number);

    assert_eq!(actual_uvarint, expected_uvarint);
    Ok(())
}

#[test]
fn test_from_bytes_spec3() -> Result<(), DecodeError> {
    let number: u128 = 128;
    let bytes: Vec<u8> = vec![128, 1];

    let actual_uvarint: UVarInt = UVarInt::from_bytes(bytes)?;
    let expected_uvarint: UVarInt = UVarInt::new(number);

    assert_eq!(actual_uvarint, expected_uvarint);
    Ok(())
}

#[test]
fn test_from_bytes_spec4() -> Result<(), DecodeError> {
    let number: u128 = 255;
    let bytes: Vec<u8> = vec![255, 1];

    let actual_uvarint: UVarInt = UVarInt::from_bytes(bytes)?;
    let expected_uvarint: UVarInt = UVarInt::new(number);

    assert_eq!(actual_uvarint, expected_uvarint);
    Ok(())
}

#[test]
fn test_from_bytes_spec5() -> Result<(), DecodeError> {
    let number: u128 = 300;
    let bytes: Vec<u8> = vec![172, 2];

    let actual_uvarint: UVarInt = UVarInt::from_bytes(bytes)?;
    let expected_uvarint: UVarInt = UVarInt::new(number);

    assert_eq!(actual_uvarint, expected_uvarint);
    Ok(())
}

#[test]
fn test_from_bytes_spec6() -> Result<(), DecodeError> {
    let number: u128 = 16384;
    let bytes: Vec<u8> = vec![128, 128, 1];

    let actual_uvarint: UVarInt = UVarInt::from_bytes(bytes)?;
    let expected_uvarint: UVarInt = UVarInt::new(number);

    assert_eq!(actual_uvarint, expected_uvarint);
    Ok(())
}
