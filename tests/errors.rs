use aerospike_core::errors::{Error, ErrorKind, ResultCode, ResultExt, Result};

#[test]
fn ad_lib() {
    fn result_check() -> Result<()> {
        Err(Error::from_kind(ErrorKind::BadResponse("Missing replicas info".to_string())))
    }

    // test a few ways that errors are created
    let r = result_check();
    assert!(r.is_err());
    assert!(r.unwrap_err().backtrace().is_none());
    let r: Result<()> = Err(Error::from_kind(ErrorKind::ServerError(ResultCode::BatchDisabled)));
    assert!(r.is_err());
    let r2 = r.chain_err(ErrorKind::InvalidArgument(format!("Invalid hosts list: '{}'", "boohoo")));
    assert!(r2.is_err());

    let e1 = Error::from_kind(ErrorKind::InvalidArgument("this is not good".to_string()));
    let e2 = e1
        .chain_err(ErrorKind::Msg("chained msg".to_string()))
        .chain_err(ErrorKind::BadResponse("resp".to_string()));
    println!("as debug format {:?}", &e2);
    let sum = e2.iter().len();
    assert_eq!(sum, 3);
}

#[test]
fn chain_keeps_order_of_causes() {
    let e = Error::from_kind(ErrorKind::Timeout("t".to_string()))
        .chain_err(ErrorKind::Connection("c".to_string()));
    let kinds = e.iter();
    assert_eq!(*kinds[0], ErrorKind::Connection("c".to_string()));
    assert_eq!(*kinds[1], ErrorKind::Timeout("t".to_string()));
    assert_eq!(e.description(), "Network Connection Issue");
}

#[test]
fn option_chain_err_gives_the_kind() {
    let none: Option<u8> = None;
    let r = none.chain_err(ErrorKind::NoMoreConnections);
    assert_eq!(r.unwrap_err().kind(), &ErrorKind::NoMoreConnections);
}

#[test]
fn result_codes_round_trip() {
    for b in 0..=255u8 {
        assert_eq!(ResultCode::from_u8(b).to_u8(), b);
    }
    assert_eq!(ResultCode::from_u8(100), ResultCode::UdfBadResponse);
    assert_eq!(ResultCode::from_u8(2), ResultCode::KeyNotFoundError);
    assert_eq!(ResultCode::from_u8(99), ResultCode::Unknown(99));
}
