use bratwurst::config::{CodecConfig, FileOpt, Mode, Way};
use bratwurst::fault::Fault;

#[test]
fn valid_configuration_is_accepted() {
    let c = CodecConfig::new(3, Mode::Generic, 13, 17).unwrap();
    assert_eq!(c.quality, 3);
    assert_eq!(c.mode, Mode::Generic);
    assert_eq!(c.lgwin, 13);
    assert_eq!(c.lgblock, 17);
}

#[test]
fn block_smaller_than_window_is_rejected() {
    // Both exponents in range, but the block would be half the window: the
    // combination fails before any I/O.
    let r = CodecConfig::new(3, Mode::Generic, 17, 16);
    assert_eq!(r.err(), Some(Fault::Config));
}

#[test]
fn quality_out_of_range_is_rejected() {
    assert_eq!(CodecConfig::new(12, Mode::Generic, 13, 17).err(), Some(Fault::Config));
}

#[test]
fn window_out_of_range_is_rejected() {
    assert_eq!(CodecConfig::new(3, Mode::Generic, 9, 17).err(), Some(Fault::Config));
    assert_eq!(CodecConfig::new(3, Mode::Generic, 25, 24).err(), Some(Fault::Config));
}

#[test]
fn block_out_of_range_is_rejected() {
    assert_eq!(CodecConfig::new(3, Mode::Generic, 10, 15).err(), Some(Fault::Config));
    assert_eq!(CodecConfig::new(3, Mode::Generic, 10, 25).err(), Some(Fault::Config));
}

#[test]
fn boundary_configurations() {
    assert!(CodecConfig::new(0, Mode::Font, 10, 16).is_ok());
    assert!(CodecConfig::new(11, Mode::Text, 24, 24).is_ok());
    assert!(CodecConfig::new(11, Mode::Text, 16, 16).is_ok());
}

#[test]
fn block_size_is_two_to_the_exponent() {
    let c = CodecConfig::new(3, Mode::Generic, 10, 16).unwrap();
    assert_eq!(c.block_size(), 65536);
    let c = CodecConfig::new(3, Mode::Generic, 10, 24).unwrap();
    assert_eq!(c.block_size(), 16777216);
}

#[test]
fn endpoint_and_way_values() {
    let input = FileOpt::File(String::from("data.bin"));
    let output = FileOpt::Magic;
    assert_ne!(input, output);
    assert_eq!(Way::Compress, Way::Compress);
    assert_ne!(Way::Compress, Way::Decompress);
}

#[test]
fn fault_descriptions_are_fixed() {
    assert_eq!(Fault::Config.describe(), "invalid configuration");
    assert_eq!(Fault::Codec.describe(), "codec failure on a block");
    assert_eq!(Fault::Endpoint.describe(), "endpoint I/O failure");
    assert_eq!(
        Fault::OrderingViolation.describe(),
        "rank submitted below the reassembly cursor"
    );
    assert_eq!(Fault::DuplicateRank.describe(), "rank submitted twice");
}

#[test]
fn fault_descriptions_are_distinct() {
    let faults = [
        Fault::Endpoint,
        Fault::Codec,
        Fault::OrderingViolation,
        Fault::DuplicateRank,
        Fault::Config,
    ];
    for (i, a) in faults.iter().enumerate() {
        assert!(!a.describe().is_empty());
        for b in faults.iter().skip(i + 1) {
            assert_ne!(a.describe(), b.describe());
        }
    }
}
