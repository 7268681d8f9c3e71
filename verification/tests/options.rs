use exomizer::original::encoding::parse_encoding_exec;
use exomizer::original::{
    CrunchOptions, CrunchOptionsBuilder, CrunchOptionsError, DecrunchOptions, DecrunchOptionsError, Level, Logger,
    ProtoFlags, TraitFlags,
};

#[test]
fn default_options_build() {
    let c = CrunchOptions::builder().build().unwrap();
    assert_eq!(c.options().max_passes, 100);
    assert_eq!(c.options().flags_proto.as_num(), 39);
    assert!(c.encoding().is_none());
    let d = DecrunchOptions::builder().build().unwrap();
    assert_eq!(d.options().flags_proto.as_num(), 39);
    assert!(!d.options().direction_forward);
}

#[test]
fn crunch_option_errors() {
    assert_eq!(CrunchOptions::builder().max_passes(101).build().err(), Some(CrunchOptionsError::InvalidMaxPasses));
    assert_eq!(CrunchOptions::builder().flags_proto(64u8).build().err(), Some(CrunchOptionsError::InvalidFlagsProto));
    assert_eq!(CrunchOptions::builder().flags_notrait_num(8).build().err(), Some(CrunchOptionsError::InvalidFlagsTrait));
    assert_eq!(
        CrunchOptions::builder().imported_encoding(Some("123".to_string())).build().err(),
        Some(CrunchOptionsError::InvalidImportedEncoding)
    );
    let good = "1011010200000000,2122,3212114335665737,4445555556766789";
    let o = CrunchOptions::builder().flags_proto(ProtoFlags::from_num(7)).imported_encoding(Some(good.to_string())).build().unwrap();
    assert_eq!(o.encoding().as_ref().unwrap(), &good.as_bytes().to_vec());
    let tabs = parse_encoding_exec(good.as_bytes(), false).unwrap();
    assert_eq!(tabs.iter().map(|t| t.len()).collect::<Vec<_>>(), vec![16, 4, 16, 16]);
    assert_eq!(CrunchOptionsError::InvalidMaxPasses.to_string(), "Invalid max passes");
    let b: CrunchOptionsBuilder = CrunchOptions::builder().max_len(100).max_offset(200).favor_speed(true).output_header(false);
    assert_eq!((b.max_len, b.max_offset, b.favor_speed, b.output_header), (100, 200, true, false));
    let t = CrunchOptions::builder().flags_notrait(TraitFlags::LitSeq).direction_forward(true).write_reverse(true);
    assert_eq!(t.flags_notrait, TraitFlags::LitSeq);
    assert!(t.direction_forward && t.write_reverse);
}

#[test]
fn decrunch_option_errors() {
    assert_eq!(
        DecrunchOptions::builder().imported_encoding(Some("12\03".to_string())).build().err(),
        Some(DecrunchOptionsError::InvalidImportedEncoding)
    );
    assert_eq!(DecrunchOptions::builder().flags_proto(200u8).build().err(), Some(DecrunchOptionsError::InvalidFlagsProto));
    assert_eq!(DecrunchOptionsError::InvalidFlagsProto.to_string(), "Invalid proto flags");
}

#[test]
fn logger_settings() {
    let mut l = Logger::with_writer(Vec::<u8>::new());
    assert_eq!(l.level, Level::Normal);
    assert_eq!(l.progress_bar_length, 64);
    l.level(Level::Debug).progress_bar_length(10);
    assert_eq!(l.level, Level::Debug);
    assert_eq!(l.progress_bar_length, 10);
}

#[test]
fn built_options_read_as_builder_fields() {
    let c = CrunchOptions::builder().max_len(300).favor_speed(true).build().unwrap();
    assert_eq!(c.max_len, 300);
    assert!(c.favor_speed);
    assert_eq!(c.max_offset, 65535);
    let d = DecrunchOptions::builder().write_reverse(true).build().unwrap();
    assert!(d.write_reverse);
    assert!(!d.direction_forward);
}
