use llama_bot::config::{CommandArgs, Config, MatrixConfig};

fn sample(interactive: bool) -> Config {
    Config {
        matrix: MatrixConfig {
            username: "bot".to_string(),
            password: "SECRET-REDACTED".to_string(),
            homeserver_url: "https://matrix.example.org".to_string(),
        },
        path: "./main".to_string(),
        command_args: CommandArgs {
            model: "models/7B/ggml-model.bin".to_string(),
            interactive,
            reverse_prompt: "User:".to_string(),
            prompt: "Transcript\nUser: hi\nBot:".to_string(),
        },
    }
}

#[test]
fn build_cmd_interactive() {
    let cmd = sample(true).build_cmd();
    assert_eq!(
        cmd,
        vec![
            "./main",
            "--model",
            "models/7B/ggml-model.bin",
            "--interactive",
            "--reverse_prompt",
            "User:",
            "--prompt",
            "Transcript\nUser: hi\nBot:",
        ]
    );
}

#[test]
fn build_cmd_not_interactive_leaves_an_empty_argument() {
    let cmd = sample(false).build_cmd();
    assert_eq!(cmd.len(), 8);
    assert_eq!(cmd[3], "");
    assert_eq!(cmd[4], "--reverse_prompt");
}

#[test]
fn default_config_is_empty() {
    let c = Config::default();
    assert_eq!(c.path, "");
    assert_eq!(c.matrix.username, "");
    assert_eq!(c.matrix.homeserver_url, "");
    assert!(!c.command_args.interactive);
    assert_eq!(c.command_args.prompt, "");
}
