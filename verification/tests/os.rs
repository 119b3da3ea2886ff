use byond_get::ByondGetError;
use byond_get::OsType;

#[test]
fn as_str_names_each_platform() {
    assert_eq!(OsType::Windows.as_str(), "windows");
    assert_eq!(OsType::Linux.as_str(), "linux");
}

#[test]
fn url_of_a_windows_build() {
    assert_eq!(
        OsType::Windows.url(516, 1657),
        "https://www.byond.com/download/build/516/516.1657_byond.zip"
    );
}

#[test]
fn url_of_a_linux_build() {
    assert_eq!(
        OsType::Linux.url(516, 1657),
        "https://www.byond.com/download/build/516/516.1657_byond_linux.zip"
    );
}

#[test]
fn url_at_the_ends_of_the_range() {
    assert_eq!(
        OsType::Windows.url(0, 0),
        "https://www.byond.com/download/build/0/0.0_byond.zip"
    );
    assert_eq!(
        OsType::Linux.url(65535, 65535),
        "https://www.byond.com/download/build/65535/65535.65535_byond_linux.zip"
    );
    assert_eq!(
        OsType::Linux.url(10, 100),
        "https://www.byond.com/download/build/10/10.100_byond_linux.zip"
    );
}

#[test]
fn url_is_the_same_for_the_same_build() {
    assert_eq!(OsType::Linux.url(515, 1647), OsType::Linux.url(515, 1647));
    assert_ne!(OsType::Linux.url(515, 1647), OsType::Windows.url(515, 1647));
    assert_ne!(OsType::Linux.url(515, 1647), OsType::Linux.url(515, 1646));
}

#[test]
fn url_agrees_with_formatting() {
    for (version, build) in [(1u16, 2u16), (99, 100), (512, 1488), (9999, 10000), (40000, 7)] {
        assert_eq!(
            OsType::Windows.url(version, build),
            format!("https://www.byond.com/download/build/{version}/{version}.{build}_byond.zip")
        );
    }
}

#[test]
fn from_str_reads_linux() {
    assert_eq!(OsType::from_str("linux"), Ok(OsType::Linux));
    assert_eq!(OsType::from_str("Linux"), Ok(OsType::Linux));
    assert_eq!(OsType::from_str("  LINUX\n"), Ok(OsType::Linux));
}

#[test]
fn from_str_reads_windows_and_its_short_names() {
    assert_eq!(OsType::from_str("windows"), Ok(OsType::Windows));
    assert_eq!(OsType::from_str("Windows"), Ok(OsType::Windows));
    assert_eq!(OsType::from_str("win"), Ok(OsType::Windows));
    assert_eq!(OsType::from_str("WIN32"), Ok(OsType::Windows));
    assert_eq!(OsType::from_str("\twin32 "), Ok(OsType::Windows));
}

#[test]
fn from_str_hands_back_what_names_no_platform() {
    assert_eq!(OsType::from_str("mac"), Err(ByondGetError::BadOs("mac".to_owned())));
    assert_eq!(OsType::from_str("  mac os \n"), Err(ByondGetError::BadOs("mac os".to_owned())));
    assert_eq!(OsType::from_str(""), Err(ByondGetError::BadOs(String::new())));
    assert_eq!(OsType::from_str("   "), Err(ByondGetError::BadOs(String::new())));
    assert_eq!(OsType::from_str("win64"), Err(ByondGetError::BadOs("win64".to_owned())));
    assert_eq!(OsType::from_str("linu"), Err(ByondGetError::BadOs("linu".to_owned())));
    assert_eq!(OsType::from_str("linuxx"), Err(ByondGetError::BadOs("linuxx".to_owned())));
    assert_eq!(OsType::from_str("lin ux"), Err(ByondGetError::BadOs("lin ux".to_owned())));
}

#[test]
fn from_str_folds_ascii_letters_only() {
    // U+212A, the Kelvin sign, lowers to `k` in Unicode but is no ASCII letter.
    assert_eq!(
        OsType::from_str("\u{212A}in"),
        Err(ByondGetError::BadOs("\u{212A}in".to_owned()))
    );
    assert_eq!(OsType::from_str("wIn"), Ok(OsType::Windows));
}

#[test]
fn parse_reads_a_platform() {
    assert_eq!("linux".parse::<OsType>(), Ok(OsType::Linux));
    assert_eq!(" Win ".parse::<OsType>(), Ok(OsType::Windows));
    assert_eq!("bsd".parse::<OsType>(), Err(ByondGetError::BadOs("bsd".to_owned())));
}

#[test]
fn each_name_reads_back() {
    for os in [OsType::Windows, OsType::Linux] {
        assert_eq!(OsType::from_str(os.as_str()), Ok(os));
    }
}
