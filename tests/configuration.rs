use m3u_playlist::configuration::Configuration;

#[test]
fn normalize_lowers_extensions() {
    let c = Configuration {
        scan: vec!["Music".to_string()],
        extensions: vec!["MP4".to_string(), "Mpg".to_string(), "ogg".to_string(), "ÄÖ".to_string()],
        verbose: true,
        ..Default::default()
    }
    .normalize();
    assert_eq!(c.extensions, vec!["mp4", "mpg", "ogg", "äö"]);
    assert_eq!(c.scan, vec!["Music"]);
    assert!(c.verbose);
}

#[test]
fn merge_prefers_the_other_and_concatenates() {
    let file = Configuration {
        config: None,
        debug: true,
        verbose: false,
        output: Some("list.m3u".to_string()),
        scan: vec!["a".to_string()],
        extensions: vec!["mp4".to_string()],
        randomize: false,
        maximum: Some(10),
        detect_duplicates: false,
    };
    let cli = Configuration {
        config: Some("conf.yaml".to_string()),
        debug: false,
        verbose: true,
        output: None,
        scan: vec!["b".to_string(), "c".to_string()],
        extensions: vec!["mpg".to_string()],
        randomize: true,
        maximum: Some(3),
        detect_duplicates: true,
    };
    let m = file.merge(cli);
    assert_eq!(m.config, Some("conf.yaml".to_string()));
    assert!(m.debug);
    assert!(m.verbose);
    assert_eq!(m.output, Some("list.m3u".to_string()));
    assert_eq!(m.scan, vec!["a", "b", "c"]);
    assert_eq!(m.extensions, vec!["mp4", "mpg"]);
    assert!(m.randomize);
    assert_eq!(m.maximum, Some(3));
    assert!(m.detect_duplicates);
}

#[test]
fn merge_keeps_own_options_when_other_has_none() {
    let own = Configuration { maximum: Some(5), config: Some("x.yaml".to_string()), ..Default::default() };
    let m = own.merge(Configuration::default());
    assert_eq!(m.maximum, Some(5));
    assert_eq!(m.config, Some("x.yaml".to_string()));
    assert!(!m.debug);
    assert!(m.scan.is_empty());
}
