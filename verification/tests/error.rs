use byond_get::ByondGetError;
use byond_get::OsType;
use byond_get::PartialFailure;
use byond_get::TransferFailure;

fn transfer(http_status: bool, message: &str) -> TransferFailure {
    TransferFailure { http_status, message: message.to_owned() }
}

#[test]
fn an_error_status_means_a_bad_version() {
    assert_eq!(
        ByondGetError::from_transfer(transfer(true, "404"), 516, 1657, OsType::Linux),
        ByondGetError::BadVersion { version: 516, build: 1657, os: OsType::Linux }
    );
    assert_eq!(
        ByondGetError::from_transfer(transfer(true, ""), 1, 2, OsType::Windows),
        ByondGetError::BadVersion { version: 1, build: 2, os: OsType::Windows }
    );
}

#[test]
fn another_failed_transfer_is_a_network_failure() {
    assert_eq!(
        ByondGetError::from_transfer(transfer(false, "timed out"), 516, 1657, OsType::Linux),
        ByondGetError::Network("timed out".to_owned())
    );
}

#[test]
fn a_failed_probe_is_classified() {
    assert_eq!(
        ByondGetError::from_probe(PartialFailure::InvalidUrl, 516, 1657, OsType::Windows),
        ByondGetError::BadVersion { version: 516, build: 1657, os: OsType::Windows }
    );
    assert_eq!(
        ByondGetError::from_probe(
            PartialFailure::Transfer(transfer(true, "404")),
            516,
            1657,
            OsType::Linux
        ),
        ByondGetError::BadVersion { version: 516, build: 1657, os: OsType::Linux }
    );
    assert_eq!(
        ByondGetError::from_probe(
            PartialFailure::Transfer(transfer(false, "no route")),
            516,
            1657,
            OsType::Linux
        ),
        ByondGetError::Network("no route".to_owned())
    );
    assert_eq!(
        ByondGetError::from_probe(PartialFailure::Io("disk".to_owned()), 516, 1657, OsType::Linux),
        ByondGetError::Io("disk".to_owned())
    );
    assert_eq!(
        ByondGetError::from_probe(
            PartialFailure::Archive("no directory".to_owned()),
            516,
            1657,
            OsType::Linux
        ),
        ByondGetError::MalformedArchive("no directory".to_owned())
    );
}

#[test]
fn a_failed_entry_is_classified() {
    assert_eq!(
        ByondGetError::from_partial(PartialFailure::Transfer(transfer(false, "reset"))),
        ByondGetError::Network("reset".to_owned())
    );
    assert_eq!(
        ByondGetError::from_partial(PartialFailure::Transfer(transfer(true, "503"))),
        ByondGetError::Network("503".to_owned())
    );
    assert_eq!(
        ByondGetError::from_partial(PartialFailure::Io("disk full".to_owned())),
        ByondGetError::Io("disk full".to_owned())
    );
    assert_eq!(
        ByondGetError::from_partial(PartialFailure::Archive("bad entry".to_owned())),
        ByondGetError::MalformedArchive("bad entry".to_owned())
    );
}
