pub mod profile;
pub mod text;

use vstd::prelude::*;

use crate::worker::text::{
    lemma_split_newlines_after_newline, lemma_split_newlines_no_newline, lines, push_char, split_newlines,
    strip_cr, text_lines, trim, trim_text,
};

verus! {

/// A program and the arguments it is started with.
pub struct LaunchCommand {
    pub program: String,
    pub args: Vec<String>,
}

/// The flags every worker process gets after its profile's arguments.
pub open spec fn worker_flags() -> Seq<Seq<char>> {
    seq!["--simple-io"@, "--threads"@, "4"@]
}

/// Splits a worker's launch arguments into the program (the first one) and its
/// arguments (the others), then appends the fixed worker flags.
pub fn launch_command(lunch_args: &Vec<String>) -> (cmd: LaunchCommand)
    requires
        lunch_args.len() > 0,
    ensures
        cmd.program@ == lunch_args[0]@,
        cmd.args.deep_view() == lunch_args.deep_view().skip(1) + worker_flags(),
        cmd.args.deep_view() == lunch_args.deep_view().skip(1) + seq!["--simple-io"@, "--threads"@, "4"@],
{
    let program = lunch_args[0].clone();
    let mut args: Vec<String> = Vec::new();
    let n = lunch_args.len();
    let mut i: usize = 1;
    while i < n
        invariant
            1 <= i <= n,
            n == lunch_args.len(),
            args.deep_view() == lunch_args.deep_view().subrange(1, i as int),
        decreases n - i,
    {
        args.push(lunch_args[i].clone());
        proof {
            assert(lunch_args.deep_view().subrange(1, i + 1) =~= lunch_args.deep_view().subrange(1, i as int).push(lunch_args[i as int]@));
        }
        i = i + 1;
    }
    args.push("--simple-io".to_string());
    args.push("--threads".to_string());
    args.push("4".to_string());
    proof {
        assert(lunch_args.deep_view().subrange(1, n as int) =~= lunch_args.deep_view().skip(1));
        assert(args.deep_view() =~= lunch_args.deep_view().skip(1) + worker_flags());
    }
    LaunchCommand { program, args }
}

/// The line written to a worker for a question: the question and a newline.
pub fn question_line(question: &str) -> (line: String)
    ensures
        line@ == question@.push('\n'),
{
    let mut line = question.to_string();
    push_char(&mut line, '\n');
    line
}

/// Why the startup marker of a worker cannot be found.
#[derive(Debug, PartialEq, Eq, Structural)]
pub enum PurgeError {
    /// The launch arguments are empty, so there is no prompt.
    NoPrompt,
    /// The prompt (the last launch argument) has fewer than two lines.
    PromptTooShort,
}

/// The line before the last line of the prompt, where the prompt is the last
/// launch argument; the worker's startup output ends when it echoes that line.
pub open spec fn purge_marker_of(argv: Seq<Seq<char>>) -> Result<Seq<char>, PurgeError> {
    if argv.len() == 0 {
        Err(PurgeError::NoPrompt)
    } else {
        let ls = text_lines(argv.last());
        if ls.len() < 2 {
            Err(PurgeError::PromptTooShort)
        } else {
            Ok(ls[ls.len() - 2])
        }
    }
}

/// The marker is the line right before the prompt's last line: for a prompt
/// `x + "\n" + y + "\n" + z` whose last two lines `y` and `z` hold no
/// newline (`z` not empty, `y` not ending in a carriage return), the marker is
/// `y`, whatever comes before.
pub proof fn lemma_marker_is_line_before_last(argv: Seq<Seq<char>>, x: Seq<char>, y: Seq<char>, z: Seq<char>)
    requires
        argv.len() > 0,
        argv.last() == x + seq!['\n'] + y + seq!['\n'] + z,
        forall|k: int| 0 <= k < y.len() ==> #[trigger] y[k] != '\n',
        forall|k: int| 0 <= k < z.len() ==> #[trigger] z[k] != '\n',
        z.len() > 0,
        y.len() == 0 || y.last() != '\r',
    ensures
        purge_marker_of(argv) == Ok::<Seq<char>, PurgeError>(y),
{
    let xy = x + seq!['\n'] + y;
    lemma_split_newlines_after_newline(x, y);
    lemma_split_newlines_after_newline(xy, z);
    let pieces = split_newlines(argv.last());
    assert(pieces == split_newlines(x).push(y).push(z));
    let ls = text_lines(argv.last());
    assert(pieces.drop_last() =~= split_newlines(x).push(y));
    assert(ls.len() == pieces.len());
    assert(ls[ls.len() - 2] == strip_cr(y));
}

/// Without launch arguments there is no prompt.
pub proof fn lemma_no_arguments_no_prompt(argv: Seq<Seq<char>>)
    requires
        argv.len() == 0,
    ensures
        purge_marker_of(argv) == Err::<Seq<char>, PurgeError>(PurgeError::NoPrompt),
{
}

/// A prompt of a single line (no newline) has no line before its last one.
pub proof fn lemma_single_line_prompt_is_too_short(argv: Seq<Seq<char>>)
    requires
        argv.len() > 0,
        forall|k: int| 0 <= k < argv.last().len() ==> #[trigger] argv.last()[k] != '\n',
    ensures
        purge_marker_of(argv) == Err::<Seq<char>, PurgeError>(PurgeError::PromptTooShort),
{
    lemma_split_newlines_no_newline(argv.last());
}

/// Finds the prompt line that marks the end of a worker's startup output.
pub fn purge_marker(argv: &Vec<String>) -> (r: Result<String, PurgeError>)
    ensures
        match r {
            Ok(m) => purge_marker_of(argv.deep_view()) == Ok::<Seq<char>, PurgeError>(m@),
            Err(e) => purge_marker_of(argv.deep_view()) == Err::<Seq<char>, PurgeError>(e),
        },
{
    let n = argv.len();
    if n == 0 {
        return Err(PurgeError::NoPrompt);
    }
    let prompt = argv[n - 1].as_str();
    let ls = lines(prompt);
    proof {
        assert(argv.deep_view().last() == argv[n - 1]@);
    }
    let k = ls.len();
    if k < 2 {
        Err(PurgeError::PromptTooShort)
    } else {
        Ok(ls[k - 2].clone())
    }
}

/// Tells whether a line of the worker's startup output is the marker line
/// (compared after trimming white space).
pub fn is_purge_end(line: &str, marker: &String) -> (b: bool)
    ensures
        b == (trim(line@) == marker@),
{
    let t = trim_text(line);
    t == *marker
}

/// The bytes `"User:"` by which the model hands the turn back to the user.
pub open spec fn stop_marker() -> Seq<u8> {
    seq![0x55u8, 0x73u8, 0x65u8, 0x72u8, 0x3au8]
}

/// The bytes read after the skipped name and the first character of the answer.
pub open spec fn reply_tail(consumed: Seq<u8>) -> Seq<u8> {
    if consumed.len() > 6 {
        consumed.skip(6)
    } else {
        Seq::<u8>::empty()
    }
}

/// Whether `s` ends with the stop marker.
pub open spec fn ends_with_marker(s: Seq<u8>) -> bool {
    s.len() >= 5 && s.skip(s.len() - 5) == stop_marker()
}

/// The answer collected from the bytes read so far: every byte after the
/// skipped name, each byte read as the character of the same number.
pub open spec fn reply_answer(consumed: Seq<u8>) -> Seq<char> {
    if consumed.len() > 5 {
        consumed.skip(5).map_values(|b: u8| b as char)
    } else {
        Seq::<char>::empty()
    }
}

/// Whether the reply is over: the bytes after the first answer character end
/// with the stop marker.
pub open spec fn reply_done(consumed: Seq<u8>) -> bool {
    ends_with_marker(reply_tail(consumed))
}

/// The last five bytes after the first answer character, padded at the front
/// with spaces.
pub open spec fn window_of(tail: Seq<u8>) -> Seq<u8> {
    (seq![0x20u8, 0x20u8, 0x20u8, 0x20u8, 0x20u8] + tail).subrange(
        tail.len() as int,
        tail.len() + 5int,
    )
}

/// The reply is over exactly when at least eleven bytes were read (five of
/// the name, one first answer character, five of the marker) and the last
/// five read are `U`, `s`, `e`, `r`, `:`, however long the answer.
pub proof fn lemma_reply_done_iff_ends_with_user(c: Seq<u8>)
    ensures
        reply_done(c) <==> (c.len() >= 11 && c[c.len() - 5] == 0x55u8 && c[c.len() - 4] == 0x73u8
            && c[c.len() - 3] == 0x65u8 && c[c.len() - 2] == 0x72u8 && c[c.len() - 1] == 0x3au8),
{
    let t = reply_tail(c);
    if c.len() > 6 && t.len() >= 5 {
        let tail5 = t.skip(t.len() - 5);
        assert forall|k: int| 0 <= k < 5 implies #[trigger] tail5[k] == c[c.len() - 5 + k] by {}
        if c.len() >= 11 && c[c.len() - 5] == 0x55u8 && c[c.len() - 4] == 0x73u8 && c[c.len() - 3]
            == 0x65u8 && c[c.len() - 2] == 0x72u8 && c[c.len() - 1] == 0x3au8 {
            assert(tail5 =~= stop_marker());
        }
        if tail5 == stop_marker() {
            assert(tail5[0] == 0x55u8);
            assert(tail5[1] == 0x73u8);
            assert(tail5[2] == 0x65u8);
            assert(tail5[3] == 0x72u8);
            assert(tail5[4] == 0x3au8);
        }
    }
}

/// The answer is every byte read after the five-byte name, in order, each
/// read as the character with the same number.
pub proof fn lemma_reply_answer_is_bytes_after_name(c: Seq<u8>)
    ensures
        c.len() <= 5 ==> reply_answer(c).len() == 0,
        c.len() > 5 ==> reply_answer(c).len() == c.len() - 5 && forall|k: int|
            0 <= k < c.len() - 5 ==> #[trigger] reply_answer(c)[k] == c[k + 5] as char,
{
}

/// A finished answer ends with the stop marker, read as characters.
pub proof fn lemma_finished_answer_ends_with_marker(consumed: Seq<u8>)
    requires
        reply_done(consumed),
    ensures
        ({
            let a = reply_answer(consumed);
            a.len() >= 5 && a.skip(a.len() - 5) == stop_marker().map_values(|b: u8| b as char)
        }),
{
    let a = reply_answer(consumed);
    let t = reply_tail(consumed);
    assert(a.skip(a.len() - 5) =~= stop_marker().map_values(|b: u8| b as char)) by {
        assert forall|k: int| 0 <= k < 5 implies #[trigger] a.skip(a.len() - 5)[k] == stop_marker().map_values(|b: u8| b as char)[k] by {
            assert(a[a.len() - 5 + k] == consumed[consumed.len() - 5 + k] as char);
            assert(t.skip(t.len() - 5)[k] == consumed[consumed.len() - 5 + k]);
        }
    }
}

/// Reads a worker's answer byte by byte: skips the speaker's name, keeps every
/// following byte and stops once the answer ends with `"User:"`.
pub struct ReplyScanner {
    answer: Vec<char>,
    window: Vec<u8>,
    read: usize,
    done: bool,
    consumed: Ghost<Seq<u8>>,
}

impl View for ReplyScanner {
    type V = Seq<u8>;

    /// The bytes fed so far.
    closed spec fn view(&self) -> Seq<u8> {
        self.consumed@
    }
}

impl ReplyScanner {
    /// The scanner's fields agree with the bytes fed so far, and no earlier
    /// prefix of them ended the reply.
    pub closed spec fn wf(self) -> bool {
        let c = self.consumed@;
        &&& self.read == if c.len() < 6 { c.len() } else { 6 }
        &&& self.answer@ == reply_answer(c)
        &&& self.window@ == window_of(reply_tail(c))
        &&& self.done == reply_done(c)
        &&& forall|k: int| 6 < k < c.len() ==> !#[trigger] ends_with_marker(c.subrange(6, k))
    }

    pub fn new() -> (s: ReplyScanner)
        ensures
            s.wf(),
            s@ == Seq::<u8>::empty(),
    {
        let mut window: Vec<u8> = Vec::new();
        window.push(0x20);
        window.push(0x20);
        window.push(0x20);
        window.push(0x20);
        window.push(0x20);
        let s = ReplyScanner {
            answer: Vec::new(),
            window,
            read: 0,
            done: false,
            consumed: Ghost(Seq::<u8>::empty()),
        };
        proof {
            assert(s.window@ =~= window_of(reply_tail(s.consumed@)));
            assert(s.answer@ =~= reply_answer(s.consumed@));
        }
        s
    }

    /// Whether the stop marker has been read.
    pub fn is_finished(&self) -> (b: bool)
        requires
            self.wf(),
        ensures
            b == reply_done(self@),
    {
        self.done
    }

    /// Whether the name and the first answer character have been read, so that
    /// the scanner now waits for the rest of the answer.
    pub fn in_answer(&self) -> (b: bool)
        requires
            self.wf(),
        ensures
            b == (self@.len() >= 6),
    {
        self.read == 6
    }

    /// Takes the next byte of the worker's output. Returns whether the answer
    /// is complete.
    pub fn feed(&mut self, byte: u8) -> (finished: bool)
        requires
            old(self).wf(),
            !reply_done(old(self)@),
        ensures
            final(self).wf(),
            final(self)@ == old(self)@.push(byte),
            finished == reply_done(final(self)@),
    {
        let ghost c0 = self.consumed@;
        let ghost c1 = c0.push(byte);
        proof {
            assert(c1.subrange(0, c0.len() as int) =~= c0);
        }
        if self.read < 5 {
            self.read = self.read + 1;
            self.consumed = Ghost(c1);
            proof {
                assert(reply_tail(c1) =~= reply_tail(c0));
                assert(reply_answer(c1) =~= reply_answer(c0));
            }
        } else if self.read == 5 {
            self.answer.push(byte as char);
            self.read = 6;
            self.consumed = Ghost(c1);
            proof {
                assert(reply_tail(c1) =~= reply_tail(c0));
                assert(c1.skip(5) =~= seq![byte]);
                assert(reply_answer(c1) =~= seq![byte as char]);
                assert(self.answer@ =~= reply_answer(c1));
            }
        } else {
            self.answer.push(byte as char);
            self.window.remove(0);
            self.window.push(byte);
            self.consumed = Ghost(c1);
            let w = &self.window;
            let found = w[0] == 0x55 && w[1] == 0x73 && w[2] == 0x65 && w[3] == 0x72 && w[4] == 0x3a;
            self.done = found;
            proof {
                let t0 = reply_tail(c0);
                let t1 = reply_tail(c1);
                assert(c1.skip(5) =~= c0.skip(5).push(byte));
                assert(reply_answer(c1) =~= reply_answer(c0).push(byte as char));
                assert(t1 =~= t0.push(byte));
                let pad = seq![0x20u8, 0x20u8, 0x20u8, 0x20u8, 0x20u8];
                assert(pad + t1 =~= (pad + t0).push(byte));
                assert(self.window@ =~= window_of(t1));
                if t1.len() >= 5 {
                    assert(window_of(t1) =~= t1.skip(t1.len() - 5));
                } else {
                    assert(window_of(t1)[0] == 0x20u8);
                }
                assert(found == (window_of(t1) =~= stop_marker()));
                assert(found == reply_done(c1));
                assert forall|k: int| 6 < k < c1.len() implies !#[trigger] ends_with_marker(c1.subrange(6, k)) by {
                    if k < c0.len() {
                        assert(c1.subrange(6, k) =~= c0.subrange(6, k));
                    } else {
                        assert(c1.subrange(6, k) =~= t0);
                    }
                }
            }
        }
        self.done
    }

    /// The scanner finishes at the first stop marker: no shorter run of the
    /// bytes fed ended the answer.
    pub proof fn lemma_stops_at_first_marker(&self)
        requires
            self.wf(),
        ensures
            forall|k: int| 6 < k < self@.len() ==> !#[trigger] reply_done(self@.take(k)),
    {
        assert forall|k: int| 6 < k < self@.len() implies !#[trigger] reply_done(self@.take(k)) by {
            assert(reply_tail(self@.take(k)) =~= self@.subrange(6, k));
        }
    }

    /// The answer read so far, as a string.
    pub fn answer(&self) -> (text: String)
        requires
            self.wf(),
        ensures
            text@ == reply_answer(self@),
    {
        let mut text = String::new();
        let n = self.answer.len();
        let mut i: usize = 0;
        while i < n
            invariant
                i <= n,
                n == self.answer@.len(),
                text@ == self.answer@.take(i as int),
            decreases n - i,
        {
            push_char(&mut text, self.answer[i]);
            proof {
                assert(self.answer@.take(i + 1) =~= self.answer@.take(i as int).push(self.answer@[i as int]));
            }
            i = i + 1;
        }
        proof {
            assert(self.answer@.take(n as int) =~= self.answer@);
        }
        text
    }
}

} // verus!
