use vstd::prelude::*;

verus! {

/// Login settings for the Matrix home server.
#[derive(Debug, Clone)]
pub struct MatrixConfig {
    pub username: String,
    pub password: String,
    pub homeserver_url: String,
}

/// Arguments handed to the llama.cpp binary.
#[derive(Debug, Clone)]
pub struct CommandArgs {
    pub model: String,
    pub interactive: bool,
    pub reverse_prompt: String,
    pub prompt: String,
}

/// The whole configuration file.
#[derive(Debug, Clone)]
pub struct Config {
    pub matrix: MatrixConfig,
    pub path: String,
    pub command_args: CommandArgs,
}

/// The command line that `build_cmd` produces, as character sequences.
pub open spec fn cmd_spec(path: Seq<char>, args: CommandArgs) -> Seq<Seq<char>> {
    seq![
        path,
        "--model"@,
        args.model@,
        if args.interactive { "--interactive"@ } else { Seq::<char>::empty() },
        "--reverse_prompt"@,
        args.reverse_prompt@,
        "--prompt"@,
        args.prompt@,
    ]
}

/// The command line has eight arguments: the binary path, `--model` and the
/// model, `--interactive` or an empty argument as the interactive flag says,
/// `--reverse_prompt` and the reverse prompt, `--prompt` and the prompt; each
/// value is the configured one whatever the other settings.
pub proof fn lemma_cmd_arguments(c: Config)
    ensures
        c.cmd().len() == 8,
        c.cmd()[0] == c.path@,
        c.cmd()[1] == "--model"@,
        c.cmd()[2] == c.command_args.model@,
        c.command_args.interactive ==> c.cmd()[3] == "--interactive"@,
        !c.command_args.interactive ==> c.cmd()[3].len() == 0,
        c.cmd()[4] == "--reverse_prompt"@,
        c.cmd()[5] == c.command_args.reverse_prompt@,
        c.cmd()[6] == "--prompt"@,
        c.cmd()[7] == c.command_args.prompt@,
{
}

impl Default for MatrixConfig {
    fn default() -> (c: Self)
        ensures
            c.username@ == Seq::<char>::empty(),
            c.password@ == Seq::<char>::empty(),
            c.homeserver_url@ == Seq::<char>::empty(),
    {
        MatrixConfig { username: String::new(), password: String::new(), homeserver_url: String::new() }
    }
}

impl Default for CommandArgs {
    fn default() -> (c: Self)
        ensures
            c.model@ == Seq::<char>::empty(),
            !c.interactive,
            c.reverse_prompt@ == Seq::<char>::empty(),
            c.prompt@ == Seq::<char>::empty(),
    {
        CommandArgs {
            model: String::new(),
            interactive: false,
            reverse_prompt: String::new(),
            prompt: String::new(),
        }
    }
}

impl Default for Config {
    fn default() -> (c: Self)
        ensures
            c.matrix.username@ == Seq::<char>::empty(),
            c.matrix.password@ == Seq::<char>::empty(),
            c.matrix.homeserver_url@ == Seq::<char>::empty(),
            c.path@ == Seq::<char>::empty(),
            c.command_args.model@ == Seq::<char>::empty(),
            !c.command_args.interactive,
            c.command_args.reverse_prompt@ == Seq::<char>::empty(),
            c.command_args.prompt@ == Seq::<char>::empty(),
    {
        Config {
            matrix: MatrixConfig::default(),
            path: String::new(),
            command_args: CommandArgs::default(),
        }
    }
}

impl Config {
    pub open spec fn cmd(self) -> Seq<Seq<char>> {
        cmd_spec(self.path@, self.command_args)
    }

    /// Builds the llama.cpp command line: the binary path followed by its flags.
    /// The interactive flag is replaced by an empty argument when it is off.
    pub fn build_cmd(&self) -> (cmd: Vec<String>)
        ensures
            cmd.deep_view() == self.cmd(),
    {
        let cmd_arg = &self.command_args;
        let interactive = if cmd_arg.interactive {
            "--interactive".to_string()
        } else {
            "".to_string()
        };
        let cmd = vec![
            self.path.clone(),
            "--model".to_string(),
            cmd_arg.model.clone(),
            interactive,
            "--reverse_prompt".to_string(),
            cmd_arg.reverse_prompt.clone(),
            "--prompt".to_string(),
            cmd_arg.prompt.clone(),
        ];
        proof {
            reveal_strlit("");
            assert(cmd@.len() == 8);
            assert(cmd[0]@ == self.path@);
            assert(cmd[3]@ == self.cmd()[3]);
            assert(cmd.deep_view() =~= self.cmd());
        }
        cmd
    }
}

} // verus!
