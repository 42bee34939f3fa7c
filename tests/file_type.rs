use nibi::config::{
    default_project_name, norm_pack_name, norm_recipe_name, Config, DirConf, FileType,
    InitConfig,
};
use nibi::text::{chars_of, is_whitespace, strip_line_end};
use std::str::FromStr;

#[test]
fn test() {
    assert_eq!(FileType::default(), FileType::Ron);
}

#[test]
fn test_from_str() {
    let strs: [String; 5] = [
        "ron".into(),
        "toml".into(),
        "json".into(),
        "xml".into(),
        "hcl".into(),
    ];
    let enums = [
        FileType::Ron,
        FileType::Toml,
        FileType::Json,
        FileType::Xml,
        FileType::Hcl,
    ];

    for (s, e) in strs.iter().zip(enums.iter()) {
        let chars = s.chars().collect::<Vec<char>>();
        let len = 2_u32.pow(chars.len().try_into().unwrap());
        for i in 0..len {
            let s = chars
                .iter()
                .enumerate()
                .fold(String::new(), |mut s, (pos, c)| {
                    let mask = 1 << pos;
                    if i & mask != 0 {
                        s.push(c.to_ascii_uppercase());
                    } else {
                        s.push(*c);
                    }
                    s
                });
            println!("{s}");
            assert_eq!(e, &FileType::from_str(&s).unwrap());
        }
    }
}

#[test]
fn test_display() {
    let enums = [
        FileType::Ron,
        FileType::Json,
        FileType::Toml,
        FileType::Xml,
        FileType::Hcl,
    ];
    let strs = ["ron", "json", "toml", "xml", "hcl"];
    for (s, e) in strs.iter().zip(enums.iter()) {
        assert_eq!(s.to_owned().to_owned(), e.to_string());
    }
}

#[test]
fn test_variants() {
    assert_eq!(FileType::VARIANTS, ["ron", "toml", "json", "xml", "hcl"]);
}

#[test]
fn unknown_file_type_is_refused() {
    assert!(FileType::from_str("yaml").is_err());
    assert_eq!(FileType::from_name("JsOn"), Some(FileType::Json));
}

#[test]
fn default_config_layout() {
    let config = Config::default();
    assert_eq!(config.project_name, default_project_name());
    assert_eq!(config.site_name, "nibi_site");
    assert!(config.get_dir_conf().is_default());
    let config = config.project_name("p".to_string()).site_title("s".to_string());
    assert_eq!(config.project_name, "p");
    assert_eq!(config.site_name, "s");
    let mut other = DirConf::default();
    other.site = "public".to_string();
    assert!(!other.is_default());
}

#[test]
fn recipe_names_keep_safe_characters() {
    assert_eq!(norm_recipe_name("  my recipe!/x+1 ".to_string()), "myrecipex+1");
    assert_eq!(norm_recipe_name("日本 語".to_string()), "日本語");
}

#[test]
fn pack_names_join_normed_pieces() {
    assert_eq!(norm_pack_name("a b/ /c@d".to_string()), "abc@d");
    assert_eq!(norm_pack_name("/".to_string()), "");
}

#[test]
fn init_settings_decisions() {
    let init = InitConfig {
        dir_path: ".".to_string(),
        yes_no: Some(false),
        ingots_dir_path: Some("x".to_string()),
        project_name: Some("p".to_string()),
        site_name: Some("s".to_string()),
        skip_prompt: true,
        config_file_type: Some(FileType::Toml),
        force: true,
        vcs: None,
    };
    assert!(!init.should_prompt());
    assert_eq!(init.get_force_yes_no(), Some(true));
    assert!(init.vcs_init());
}

#[test]
fn input_lines_lose_their_ending() {
    assert_eq!(strip_line_end("yes\r\n"), Some("yes".to_string()));
    assert_eq!(strip_line_end("no\n"), Some("no".to_string()));
    assert_eq!(strip_line_end("cut"), None);
    assert_eq!(strip_line_end(""), None);
}

#[test]
fn config_from_init_settings() {
    let mut init = InitConfig {
        dir_path: "/tmp/projects/blog".to_string(),
        yes_no: None,
        ingots_dir_path: None,
        project_name: None,
        site_name: None,
        skip_prompt: false,
        config_file_type: None,
        force: false,
        vcs: Some(false),
    };
    assert!(init.should_prompt());
    assert_eq!(init.get_force_yes_no(), None);
    assert!(!init.vcs_init());
    let config = nibi::config::get_config_from_init_config(&init);
    assert_eq!(config.project_name, "blog");
    assert_eq!(config.site_name, "blog");
    init.site_name = Some("My Site".to_string());
    init.dir_path = "..".to_string();
    let config = nibi::config::get_config_from_init_config(&init);
    assert_eq!(config.project_name, "nibi_project");
    assert_eq!(config.site_name, "My Site");
}

#[test]
fn whitespace_matches_std_on_every_char() {
    for u in 0..=0x10FFFFu32 {
        if let Some(c) = char::from_u32(u) {
            assert_eq!(is_whitespace(c), c.is_whitespace(), "{u:#x}");
        }
    }
    assert_eq!(chars_of("añ\u{3000}b"), vec!['a', 'ñ', '\u{3000}', 'b']);
}
