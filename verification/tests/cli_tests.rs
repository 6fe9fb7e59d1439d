use ptree::text::{split, trim};
use ptree::{Args, ColorMode, NameSet, OutputFormat};

fn has_all(set: &NameSet, names: &[&str]) -> bool {
    names.iter().all(|n| set.contains(n))
}

#[test]
fn the_default_skip_set_has_the_system_names() {
    let args = Args::new();
    let skip = args.skip_dirs();
    assert_eq!(skip.len(), 7);
    assert!(has_all(
        &skip,
        &["System Volume Information", "$Recycle.Bin", ".git", "System32", "WinSxS", "Temp", "Temporary Internet Files"]
    ));
    assert_eq!(Args::default_skip_dirs().len(), 3);
}

#[test]
fn admin_mode_drops_the_system_names() {
    let mut args = Args::new();
    args.admin = true;
    let skip = args.skip_dirs();
    assert_eq!(skip.len(), 3);
    assert!(has_all(&skip, &["System Volume Information", "$Recycle.Bin", ".git"]));
    assert!(!skip.contains("System32"));
}

#[test]
fn the_skip_option_adds_trimmed_names() {
    let mut args = Args::new();
    args.admin = true;
    args.skip = Some(" node_modules, target ,.git,,".to_string());
    let skip = args.skip_dirs();
    assert!(has_all(&skip, &["node_modules", "target", ".git", ""]));
    assert_eq!(skip.len(), 6);
    assert!(!skip.contains(" node_modules"));
}

#[test]
fn format_names_are_read_in_any_case() {
    assert_eq!(OutputFormat::parse("tree"), Ok(OutputFormat::Tree));
    assert_eq!(OutputFormat::parse("ASCII"), Ok(OutputFormat::Tree));
    assert_eq!(OutputFormat::parse("Json"), Ok(OutputFormat::Json));
    assert_eq!(OutputFormat::parse("XML"), Err("Unknown format: xml".to_string()));
    assert_eq!("json".parse::<OutputFormat>(), Ok(OutputFormat::Json));
}

#[test]
fn color_mode_names_are_read_in_any_case() {
    assert_eq!(ColorMode::parse("auto"), Ok(ColorMode::Auto));
    assert_eq!(ColorMode::parse("ALWAYS"), Ok(ColorMode::Always));
    assert_eq!(ColorMode::parse("Never"), Ok(ColorMode::Never));
    assert_eq!(ColorMode::parse("Sometimes"), Err("Unknown color mode: sometimes".to_string()));
    assert_eq!("never".parse::<ColorMode>(), Ok(ColorMode::Never));
}

#[test]
fn splitting_keeps_empty_pieces() {
    assert_eq!(split("a,b", ','), vec!["a", "b"]);
    assert_eq!(split("", ','), vec![""]);
    assert_eq!(split("a,", ','), vec!["a", ""]);
    assert_eq!(split(",a,,b", ','), vec!["", "a", "", "b"]);
}

#[test]
fn trimming_removes_unicode_white_space_at_both_ends() {
    assert_eq!(trim("  a b \t\n"), "a b");
    assert_eq!(trim("\u{2003}x\u{a0}"), "x");
    assert_eq!(trim("   "), "");
    assert_eq!(trim(""), "");
    assert_eq!(trim("x"), "x");
}

#[test]
fn white_space_is_what_unicode_says() {
    for code in 0..=0x10ffffu32 {
        if let Some(c) = char::from_u32(code) {
            assert_eq!(ptree::text::is_white_space_char(c), c.is_whitespace(), "U+{:04X}", code);
        }
    }
    let all = "\u{9}\u{a}\u{b}\u{c}\u{d} \u{85}\u{a0}\u{1680}\u{2000}\u{2001}\u{2002}\u{2003}\u{2004}\u{2005}\u{2006}\u{2007}\u{2008}\u{2009}\u{200a}\u{2028}\u{2029}\u{202f}\u{205f}\u{3000}";
    assert_eq!(trim(&format!("{}x{}", all, all)), "x");
    assert_eq!(trim("\u{200b}x\u{feff}"), "\u{200b}x\u{feff}");
}

#[test]
fn the_options_start_from_their_defaults() {
    let args = Args::new();
    assert_eq!(args.drive, 'C');
    assert_eq!(args.format, OutputFormat::Tree);
    assert_eq!(args.color, ColorMode::Auto);
    assert!(args.cache_ttl.is_none());
    assert!(!args.force);
}
