use haymaker::line::LineInfo;

#[test]
fn test_lines() {
    let cases = [
        ("nothing + should - happen ^", "nothing + should - happen ^", false, false, false, false),
        ("+debug -not silent", "debug -not silent", false, true, false, false),
        (" -+ ^debug -silent", "debug -silent", true, true, true, true),
    ];

    for (case, sans_flags, shell, debug, silence, neglect) in cases {
        let line = LineInfo::from(case);
        assert_eq!(line.shell, shell);
        assert_eq!(line.debug, debug);
        assert_eq!(line.silence, silence);
        assert_eq!(line.neglect, neglect);
        assert_eq!(line.sans_flags, sans_flags);
    }
}

#[test]
fn flags_only_line() {
    let line = LineInfo::from(" +-^ ");
    assert_eq!(line.sans_flags, "");
    assert_eq!(line.split, 0);
    assert!(line.shell && line.debug && line.silence && line.neglect);
    assert_eq!(line.full_line, " +-^ ");
    assert_eq!(LineInfo::from("\t+make").split, 2);
}

#[test]
fn unicode_white_space_among_flags() {
    let line = LineInfo::from("\u{2003}+build\u{2003}all");
    assert!(line.shell);
    assert!(line.debug);
    assert_eq!(line.sans_flags, "build\u{2003}all");
    assert_eq!(LineInfo::from("é -x").sans_flags, "é -x");
}
