use llama_bot::config::Config;
use llama_bot::worker::profile::Profile;

#[test]
fn raw() {
    let args = vec!["OwO".to_string()];
    assert_eq!(args, Profile::raw(args.clone()).create_lungh_arg(&Config::default()))
}

#[test]
fn base() {
    assert_eq!(true, true)
}

#[test]
fn from_config() {
    let args = vec!["--OwO".to_string()];
    let azer: Config = Default::default();
    assert_eq!(args.clone(), Profile::from_config(azer).create_lungh_arg(&Config::default()))
}

#[test]
fn from_config_of_a_filled_configuration_gives_its_command_line() {
    let mut conf = Config::default();
    conf.path = "./main".to_string();
    let expected: Vec<String> = vec!["./main", "--model", "", "", "--reverse_prompt", "", "--prompt", ""]
        .into_iter()
        .map(|s| s.to_string())
        .collect();
    assert_eq!(expected, Profile::from_config(conf).create_lungh_arg(&Config::default()))
}

#[test]
fn base_profile_uses_the_base_configuration() {
    let mut base = Config::default();
    base.path = "/opt/llama/main".to_string();
    base.command_args.model = "7B.bin".to_string();
    base.command_args.interactive = true;
    let args = Profile::base.create_lungh_arg(&base);
    assert_eq!(args[0], "/opt/llama/main");
    assert_eq!(args[2], "7B.bin");
    assert_eq!(args[3], "--interactive");
    assert_eq!(args.len(), 8);
}

#[test]
fn default_profile_is_base() {
    assert!(matches!(Profile::default(), Profile::base));
}
