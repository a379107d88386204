use rpx_patch::error::{Error, ErrorClass};

#[test]
fn every_error_has_its_class() {
    let config = [
        Error::InvalidRules,
        Error::MissingDefaults,
        Error::MissingCategory,
        Error::EmptyCategory,
        Error::MissingName,
        Error::EmptyName,
        Error::MissingValue,
        Error::InvalidExpression,
        Error::NoPatchFile,
        Error::InvalidTemplate,
        Error::PatternRefused,
        Error::ModuleMismatch,
        Error::MalformedRecord,
        Error::Unencodable,
    ];
    for e in config {
        assert_eq!(e.class(), ErrorClass::Config);
    }
    assert_eq!(
        Error::AssemblyFailed { address: 4, message: "no".to_string() }.class(),
        ErrorClass::Assembly
    );
    assert_eq!(Error::ShortEncoding { address: 4 }.class(), ErrorClass::Assembly);
    assert_eq!(Error::BadAddress.class(), ErrorClass::Address);
    assert_eq!(Error::OutOfBounds { index: 0 }.class(), ErrorClass::Address);
    assert_eq!(Error::UnsupportedFeature.class(), ErrorClass::UnsupportedFeature);
    assert_eq!(Error::SourceMissing.class(), ErrorClass::Io);
    assert_eq!(Error::Io.class(), ErrorClass::Io);
    assert_eq!(
        Error::ExternalTool { message: "no".to_string() }.class(),
        ErrorClass::ExternalTool
    );
}
