//! Command-line arguments, and the lines of an interactive session.

use crate::sampler::SamplerConfig;
use crate::text::{chars_of, is_space, is_space_char, number_of, parse_number, text_eq, text_of};
use vstd::prelude::*;
use vstd::string::StringExecFns;

verus! {

broadcast use vstd::string::group_string_axioms;

/// What an argument asks for.
#[derive(Debug, Clone, Copy, PartialEq, Eq, Structural)]
pub enum Flag {
    Model,
    Prompt,
    System,
    MaxTokens,
    Temperature,
    TopK,
    TopP,
    Seed,
    MaxSeqLen,
    Interactive,
    Cpu,
    Gpu,
    Help,
    Unknown,
}

/// What an argument asks for.
pub open spec fn flag_of(s: Seq<char>) -> Flag {
    if s == "--model"@ || s == "-m"@ {
        Flag::Model
    } else if s == "--prompt"@ || s == "-p"@ {
        Flag::Prompt
    } else if s == "--system"@ {
        Flag::System
    } else if s == "--max-tokens"@ || s == "-n"@ {
        Flag::MaxTokens
    } else if s == "--temperature"@ || s == "-t"@ {
        Flag::Temperature
    } else if s == "--top-k"@ || s == "-k"@ {
        Flag::TopK
    } else if s == "--top-p"@ || s == "-p_arg"@ {
        Flag::TopP
    } else if s == "--seed"@ || s == "-s"@ {
        Flag::Seed
    } else if s == "--max-seq-len"@ {
        Flag::MaxSeqLen
    } else if s == "--interactive"@ || s == "-i"@ {
        Flag::Interactive
    } else if s == "--cpu"@ {
        Flag::Cpu
    } else if s == "--gpu"@ {
        Flag::Gpu
    } else if s == "--help"@ || s == "-h"@ {
        Flag::Help
    } else {
        Flag::Unknown
    }
}

fn classify(s: &str) -> (r: Flag)
    ensures
        r == flag_of(s@),
{
    if text_eq(s, "--model") || text_eq(s, "-m") {
        Flag::Model
    } else if text_eq(s, "--prompt") || text_eq(s, "-p") {
        Flag::Prompt
    } else if text_eq(s, "--system") {
        Flag::System
    } else if text_eq(s, "--max-tokens") || text_eq(s, "-n") {
        Flag::MaxTokens
    } else if text_eq(s, "--temperature") || text_eq(s, "-t") {
        Flag::Temperature
    } else if text_eq(s, "--top-k") || text_eq(s, "-k") {
        Flag::TopK
    } else if text_eq(s, "--top-p") || text_eq(s, "-p_arg") {
        Flag::TopP
    } else if text_eq(s, "--seed") || text_eq(s, "-s") {
        Flag::Seed
    } else if text_eq(s, "--max-seq-len") {
        Flag::MaxSeqLen
    } else if text_eq(s, "--interactive") || text_eq(s, "-i") {
        Flag::Interactive
    } else if text_eq(s, "--cpu") {
        Flag::Cpu
    } else if text_eq(s, "--gpu") {
        Flag::Gpu
    } else if text_eq(s, "--help") || text_eq(s, "-h") {
        Flag::Help
    } else {
        Flag::Unknown
    }
}

/// The long name of a flag that takes a value.
pub open spec fn flag_name_view(f: Flag) -> Seq<char> {
    match f {
        Flag::Model => "--model"@,
        Flag::Prompt => "--prompt"@,
        Flag::System => "--system"@,
        Flag::MaxTokens => "--max-tokens"@,
        Flag::Temperature => "--temperature"@,
        Flag::TopK => "--top-k"@,
        Flag::TopP => "--top-p"@,
        Flag::Seed => "--seed"@,
        _ => "--max-seq-len"@,
    }
}

fn flag_name(f: Flag) -> (r: &'static str)
    ensures
        r@ == flag_name_view(f),
{
    match f {
        Flag::Model => "--model",
        Flag::Prompt => "--prompt",
        Flag::System => "--system",
        Flag::MaxTokens => "--max-tokens",
        Flag::Temperature => "--temperature",
        Flag::TopK => "--top-k",
        Flag::TopP => "--top-p",
        Flag::Seed => "--seed",
        _ => "--max-seq-len",
    }
}

/// What has been set so far.
#[verifier::ext_equal]
pub struct ArgsView {
    pub model_path: Option<Seq<char>>,
    pub prompt: Option<Seq<char>>,
    pub system: Option<Seq<char>>,
    pub max_tokens: usize,
    pub sampler_config: SamplerConfig,
    pub max_seq_len: Option<usize>,
    pub interactive: bool,
    pub use_gpu: Option<bool>,
}

/// The arguments of a run.
#[derive(Debug, Clone)]
pub struct Args {
    pub model_path: Option<String>,
    pub prompt: Option<String>,
    pub system: Option<String>,
    pub max_tokens: usize,
    pub sampler_config: SamplerConfig,
    pub max_seq_len: Option<usize>,
    pub interactive: bool,
    pub use_gpu: Option<bool>,
}

/// What an optional text holds.
pub open spec fn string_option(s: Option<String>) -> Option<Seq<char>> {
    match s {
        Some(t) => Some(t@),
        None => None,
    }
}

impl View for Args {
    type V = ArgsView;

    open spec fn view(&self) -> ArgsView {
        ArgsView {
            model_path: string_option(self.model_path),
            prompt: string_option(self.prompt),
            system: string_option(self.system),
            max_tokens: self.max_tokens,
            sampler_config: self.sampler_config,
            max_seq_len: self.max_seq_len,
            interactive: self.interactive,
            use_gpu: self.use_gpu,
        }
    }
}

/// What holds where nothing is set.
pub open spec fn no_args() -> ArgsView {
    ArgsView {
        model_path: None,
        prompt: None,
        system: None,
        max_tokens: 512,
        sampler_config: SamplerConfig::standard(),
        max_seq_len: None,
        interactive: false,
        use_gpu: None,
    }
}

/// What comes of the arguments.
pub enum OutcomeView {
    /// A run, with a model.
    Run(ArgsView),
    /// The usage is asked for.
    Help,
    /// An argument that nobody knows.
    Unknown(Seq<char>),
    /// An error, in words.
    Fail(Seq<char>),
}

/// What comes of the arguments.
#[derive(Debug, Clone)]
pub enum Outcome {
    /// A run, with a model.
    Run(Args),
    /// The usage is asked for.
    Help,
    /// An argument that nobody knows.
    Unknown(String),
    /// An error, in words.
    Fail(String),
}

impl View for Outcome {
    type V = OutcomeView;

    open spec fn view(&self) -> OutcomeView {
        match self {
            Outcome::Run(a) => OutcomeView::Run(a@),
            Outcome::Help => OutcomeView::Help,
            Outcome::Unknown(s) => OutcomeView::Unknown(s@),
            Outcome::Fail(s) => OutcomeView::Fail(s@),
        }
    }
}

/// A text read as a single-precision number: its pattern, or why it is none.
pub enum FloatView {
    Bits(u32),
    Error(Seq<char>),
}

/// A text read as a single-precision number: its pattern, or why it is none.
#[derive(Debug, Clone)]
pub enum FloatValue {
    Bits(u32),
    Error(String),
}

impl View for FloatValue {
    type V = FloatView;

    open spec fn view(&self) -> FloatView {
        match self {
            FloatValue::Bits(b) => FloatView::Bits(*b),
            FloatValue::Error(e) => FloatView::Error(e@),
        }
    }
}

/// What the texts read as.
pub open spec fn float_views(v: Seq<FloatValue>) -> Seq<FloatView> {
    Seq::new(v.len(), |i: int| v[i]@)
}

/// A flag that takes no value.
pub open spec fn is_switch(f: Flag) -> bool {
    f == Flag::Interactive || f == Flag::Cpu || f == Flag::Gpu
}

/// What a flag without a value sets.
pub open spec fn switched(a: ArgsView, f: Flag) -> ArgsView {
    match f {
        Flag::Interactive => ArgsView { interactive: true, ..a },
        Flag::Cpu => ArgsView { use_gpu: Some(false), ..a },
        _ => ArgsView { use_gpu: Some(true), ..a },
    }
}

/// The complaint about a flag's value.
pub open spec fn invalid(f: Flag, why: Seq<char>) -> Seq<char> {
    "Invalid "@ + flag_name_view(f) + ": "@ + why
}

/// The largest number that a flag takes.
pub open spec fn largest(f: Flag) -> nat {
    if f == Flag::Seed {
        u64::MAX as nat
    } else {
        usize::MAX as nat
    }
}

/// What a flag with a number sets.
pub open spec fn with_number(a: ArgsView, f: Flag, n: nat) -> ArgsView {
    match f {
        Flag::MaxTokens => ArgsView { max_tokens: n as usize, ..a },
        Flag::TopK => ArgsView {
            sampler_config: SamplerConfig { top_k: n as usize, ..a.sampler_config },
            ..a
        },
        Flag::Seed => ArgsView {
            sampler_config: SamplerConfig { seed: n as u64, ..a.sampler_config },
            ..a
        },
        _ => ArgsView { max_seq_len: Some(n as usize), ..a },
    }
}

/// What a flag with a value sets, or the complaint about it.
pub open spec fn with_value(
    a: ArgsView,
    f: Flag,
    value: Seq<char>,
    float: FloatView,
) -> Result<ArgsView, Seq<char>> {
    match f {
        Flag::Model => Ok(ArgsView { model_path: Some(value), ..a }),
        Flag::Prompt => Ok(ArgsView { prompt: Some(value), ..a }),
        Flag::System => Ok(ArgsView { system: Some(value), ..a }),
        Flag::Temperature => match float {
            FloatView::Bits(b) => Ok(
                ArgsView {
                    sampler_config: SamplerConfig { temperature: b, ..a.sampler_config },
                    ..a
                },
            ),
            FloatView::Error(e) => Err(invalid(f, e)),
        },
        Flag::TopP => match float {
            FloatView::Bits(b) => Ok(
                ArgsView { sampler_config: SamplerConfig { top_p: b, ..a.sampler_config }, ..a },
            ),
            FloatView::Error(e) => Err(invalid(f, e)),
        },
        _ => match number_of(value, largest(f)) {
            Ok(n) => Ok(with_number(a, f, n)),
            Err(e) => Err(invalid(f, e.message_view())),
        },
    }
}

/// What comes of the arguments from `i` on, given what has been set. A request for
/// help, an unknown argument or an error ends the reading.
pub open spec fn outcome_of(
    args: Seq<Seq<char>>,
    floats: Seq<FloatView>,
    i: int,
    a: ArgsView,
) -> OutcomeView
    decreases args.len() - i,
{
    if i >= args.len() {
        if a.model_path is None {
            OutcomeView::Fail("--model is required"@)
        } else {
            OutcomeView::Run(a)
        }
    } else {
        let f = flag_of(args[i]);
        if f == Flag::Help {
            OutcomeView::Help
        } else if f == Flag::Unknown {
            OutcomeView::Unknown(args[i])
        } else if is_switch(f) {
            outcome_of(args, floats, i + 1, switched(a, f))
        } else if i + 1 >= args.len() {
            OutcomeView::Fail(flag_name_view(f) + " requires a value"@)
        } else {
            match with_value(a, f, args[i + 1], floats[i + 1]) {
                Ok(b) => outcome_of(args, floats, i + 2, b),
                Err(e) => OutcomeView::Fail(e),
            }
        }
    }
}

fn complaint(f: Flag, why: &str) -> (r: String)
    ensures
        r@ == invalid(f, why@),
{
    let mut s = "Invalid ".to_owned();
    s.append(flag_name(f));
    s.append(": ");
    s.append(why);
    s
}

fn set_number(a: &mut Args, f: Flag, value: &str) -> (r: Option<String>)
    requires
        f == Flag::MaxTokens || f == Flag::TopK || f == Flag::Seed || f == Flag::MaxSeqLen,
    ensures
        match (r, with_value(old(a)@, f, value@, FloatView::Bits(0))) {
            (None, Ok(b)) => final(a)@ == b,
            (Some(e), Err(x)) => e@ == x,
            _ => false,
        },
{
    let max: u64 = if f == Flag::Seed {
        u64::MAX
    } else {
        usize::MAX as u64
    };
    match parse_number(value, max) {
        Ok(n) => {
            match f {
                Flag::MaxTokens => a.max_tokens = n as usize,
                Flag::TopK => a.sampler_config.top_k = n as usize,
                Flag::Seed => a.sampler_config.seed = n,
                _ => a.max_seq_len = Some(n as usize),
            }
            None
        },
        Err(e) => Some(complaint(f, e.message())),
    }
}

fn set_value(a: &mut Args, f: Flag, value: &str, float: &FloatValue) -> (r: Option<String>)
    requires
        !is_switch(f),
        f != Flag::Help,
        f != Flag::Unknown,
    ensures
        match (r, with_value(old(a)@, f, value@, float@)) {
            (None, Ok(b)) => final(a)@ == b,
            (Some(e), Err(x)) => e@ == x,
            _ => false,
        },
{
    match f {
        Flag::Model => {
            a.model_path = Some(value.to_owned());
            None
        },
        Flag::Prompt => {
            a.prompt = Some(value.to_owned());
            None
        },
        Flag::System => {
            a.system = Some(value.to_owned());
            None
        },
        Flag::Temperature => match float {
            FloatValue::Bits(b) => {
                a.sampler_config.temperature = *b;
                None
            },
            FloatValue::Error(e) => Some(complaint(f, e.as_str())),
        },
        Flag::TopP => match float {
            FloatValue::Bits(b) => {
                a.sampler_config.top_p = *b;
                None
            },
            FloatValue::Error(e) => Some(complaint(f, e.as_str())),
        },
        _ => set_number(a, f, value),
    }
}

/// What the arguments hold.
pub open spec fn arg_texts(v: Seq<String>) -> Seq<Seq<char>> {
    Seq::new(v.len(), |i: int| v[i]@)
}

/// Reads the arguments behind the program's name. `floats` says of each of them
/// what it reads as as a number.
pub fn parse_args(args: &Vec<String>, floats: &Vec<FloatValue>) -> (r: Outcome)
    requires
        floats@.len() == args@.len(),
    ensures
        r@ == outcome_of(arg_texts(args@), float_views(floats@), 0, no_args()),
{
    let ghost texts = arg_texts(args@);
    let ghost values = float_views(floats@);
    let mut a = Args {
        model_path: None,
        prompt: None,
        system: None,
        max_tokens: 512,
        sampler_config: SamplerConfig::default(),
        max_seq_len: None,
        interactive: false,
        use_gpu: None,
    };
    let mut i: usize = 0;
    while i < args.len()
        invariant
            i <= args@.len(),
            floats@.len() == args@.len(),
            texts == arg_texts(args@),
            values == float_views(floats@),
            outcome_of(texts, values, i as int, a@) == outcome_of(texts, values, 0, no_args()),
        decreases args@.len() - i,
    {
        assert(args.len() <= usize::MAX);
        assert(texts[i as int] == args@[i as int]@);
        let f = classify(args[i].as_str());
        match f {
            Flag::Help => {
                return Outcome::Help;
            },
            Flag::Unknown => {
                return Outcome::Unknown(args[i].clone());
            },
            Flag::Interactive => {
                a.interactive = true;
                i += 1;
            },
            Flag::Cpu => {
                a.use_gpu = Some(false);
                i += 1;
            },
            Flag::Gpu => {
                a.use_gpu = Some(true);
                i += 1;
            },
            _ => {
                if args.len() - i < 2 {
                    let mut s = flag_name(f).to_owned();
                    s.append(" requires a value");
                    return Outcome::Fail(s);
                }
                assert(texts[i + 1] == args@[i + 1]@);
                assert(values[i + 1] == floats@[i + 1]@);
                match set_value(&mut a, f, args[i + 1].as_str(), &floats[i + 1]) {
                    Some(e) => {
                        return Outcome::Fail(e);
                    },
                    None => {
                        i += 2;
                    },
                }
            },
        }
    }
    if a.model_path.is_none() {
        return Outcome::Fail("--model is required".to_owned());
    }
    Outcome::Run(a)
}

/// What a line of an interactive session asks for.
#[derive(Debug, Clone)]
pub enum Input {
    /// The end of the session.
    Quit,
    /// Nothing.
    Skip,
    /// An answer to a prompt.
    Prompt(String),
}

/// The text without the white space at its start.
pub open spec fn trimmed_start(s: Seq<char>) -> Seq<char>
    decreases s.len(),
{
    if s.len() > 0 && is_space(s[0]) {
        trimmed_start(s.drop_first())
    } else {
        s
    }
}

/// The text without the white space at its end.
pub open spec fn trimmed_end(s: Seq<char>) -> Seq<char>
    decreases s.len(),
{
    if s.len() > 0 && is_space(s.last()) {
        trimmed_end(s.drop_last())
    } else {
        s
    }
}

/// The text without the white space around it.
pub open spec fn trimmed(s: Seq<char>) -> Seq<char> {
    trimmed_end(trimmed_start(s))
}

fn trim_text(s: &str) -> (r: String)
    ensures
        r@ == trimmed(s@),
{
    let c = chars_of(s);
    let mut from: usize = 0;
    assert(c@.skip(0) =~= c@);
    while from < c.len() && is_space_char(c[from])
        invariant
            from <= c@.len(),
            trimmed_start(c@) == trimmed_start(c@.skip(from as int)),
        decreases c@.len() - from,
    {
        assert(c@.skip(from as int).drop_first() =~= c@.skip(from + 1));
        from += 1;
    }
    let ghost t = c@.skip(from as int);
    assert(trimmed_start(c@) == t);
    let mut to: usize = c.len();
    assert(c@.subrange(from as int, to as int) =~= t);
    while to > from && is_space_char(c[to - 1])
        invariant
            from <= to <= c@.len(),
            t == c@.skip(from as int),
            trimmed_end(t) == trimmed_end(c@.subrange(from as int, to as int)),
        decreases to,
    {
        let ghost u = c@.subrange(from as int, to as int);
        assert(u.last() == c@[to - 1]);
        assert(u.drop_last() =~= c@.subrange(from as int, to - 1));
        to -= 1;
    }
    proof {
        let u = c@.subrange(from as int, to as int);
        if to > from {
            assert(u.last() == c@[to - 1]);
        }
        assert(trimmed_end(u) == u);
    }
    text_of(&c.as_slice()[from..to])
}

/// Reads a line of an interactive session: "exit" and "quit" end it, an empty line
/// is passed over, and anything else is a prompt, without the white space around it.
pub fn read_line(line: &str) -> (r: Input)
    ensures
        match r {
            Input::Quit => trimmed(line@) == "exit"@ || trimmed(line@) == "quit"@,
            Input::Skip => trimmed(line@).len() == 0,
            Input::Prompt(p) => p@ == trimmed(line@) && p@ != "exit"@ && p@ != "quit"@ && p@.len()
                > 0,
        },
        trimmed(line@) == "exit"@ || trimmed(line@) == "quit"@ ==> r is Quit,
        trimmed(line@).len() == 0 ==> r is Skip,
{
    let input = trim_text(line);
    proof {
        reveal_strlit("");
        reveal_strlit("exit");
        reveal_strlit("quit");
        assert(input@.len() == 0 ==> input@ =~= ""@);
    }
    if text_eq(input.as_str(), "exit") || text_eq(input.as_str(), "quit") {
        Input::Quit
    } else if text_eq(input.as_str(), "") {
        Input::Skip
    } else {
        Input::Prompt(input)
    }
}

/// Where the arguments lead to a run, a model has been given.
pub proof fn law_a_run_has_a_model(
    args: Seq<Seq<char>>,
    floats: Seq<FloatView>,
    i: int,
    a: ArgsView,
)
    ensures
        outcome_of(args, floats, i, a) matches OutcomeView::Run(b) ==> b.model_path is Some,
    decreases args.len() - i,
{
    if i < args.len() {
        let f = flag_of(args[i]);
        if is_switch(f) {
            law_a_run_has_a_model(args, floats, i + 1, switched(a, f));
        } else if i + 1 < args.len() && f != Flag::Help && f != Flag::Unknown {
            match with_value(a, f, args[i + 1], floats[i + 1]) {
                Ok(b) => law_a_run_has_a_model(args, floats, i + 2, b),
                Err(_) => {},
            }
        }
    }
}

/// Whatever else is set, the repetition penalty stays as it is.
pub proof fn law_penalty_cannot_be_set(
    args: Seq<Seq<char>>,
    floats: Seq<FloatView>,
    i: int,
    a: ArgsView,
)
    ensures
        outcome_of(args, floats, i, a) matches OutcomeView::Run(b)
            ==> b.sampler_config.repetition_penalty == a.sampler_config.repetition_penalty
            && b.sampler_config.repetition_window == a.sampler_config.repetition_window,
    decreases args.len() - i,
{
    if i < args.len() {
        let f = flag_of(args[i]);
        if is_switch(f) {
            law_penalty_cannot_be_set(args, floats, i + 1, switched(a, f));
        } else if i + 1 < args.len() && f != Flag::Help && f != Flag::Unknown {
            match with_value(a, f, args[i + 1], floats[i + 1]) {
                Ok(b) => law_penalty_cannot_be_set(args, floats, i + 2, b),
                Err(_) => {},
            }
        }
    }
}

/// Trimming takes the white space around a text away and leaves the text as it is.
pub proof fn law_trimming_leaves_the_middle(a: Seq<char>, m: Seq<char>, b: Seq<char>)
    requires
        forall|i: int| 0 <= i < a.len() ==> is_space(#[trigger] a[i]),
        forall|i: int| 0 <= i < b.len() ==> is_space(#[trigger] b[i]),
        m.len() > 0 ==> !is_space(m[0]) && !is_space(m.last()),
    ensures
        trimmed(a + m + b) == m,
{
    if m.len() > 0 {
        lemma_trim_start(a, m + b);
        assert(a + m + b =~= a + (m + b));
        assert((m + b)[0] == m[0]);
        lemma_trim_end(m, b);
    } else {
        let s = a + b;
        assert(a + m + b =~= s + Seq::<char>::empty());
        assert forall|i: int| 0 <= i < s.len() implies is_space(#[trigger] s[i]) by {
            if i < a.len() {
                assert(s[i] == a[i]);
            } else {
                assert(s[i] == b[i - a.len()]);
            }
        }
        lemma_trim_start(s, Seq::empty());
        assert(m =~= Seq::empty());
    }
}

proof fn lemma_trim_start(a: Seq<char>, t: Seq<char>)
    requires
        forall|i: int| 0 <= i < a.len() ==> is_space(#[trigger] a[i]),
        t.len() > 0 ==> !is_space(t[0]),
    ensures
        trimmed_start(a + t) == t,
    decreases a.len(),
{
    if a.len() > 0 {
        let r = a.drop_first();
        assert((a + t)[0] == a[0]);
        assert((a + t).drop_first() =~= r + t);
        assert forall|i: int| 0 <= i < r.len() implies is_space(#[trigger] r[i]) by {
            assert(r[i] == a[i + 1]);
        }
        lemma_trim_start(r, t);
    } else {
        assert(a + t =~= t);
    }
}

proof fn lemma_trim_end(t: Seq<char>, b: Seq<char>)
    requires
        forall|i: int| 0 <= i < b.len() ==> is_space(#[trigger] b[i]),
        t.len() > 0 ==> !is_space(t.last()),
    ensures
        trimmed_end(t + b) == t,
    decreases b.len(),
{
    if b.len() > 0 {
        let r = b.drop_last();
        assert((t + b).last() == b.last());
        assert((t + b).drop_last() =~= t + r);
        assert forall|i: int| 0 <= i < r.len() implies is_space(#[trigger] r[i]) by {
            assert(r[i] == b[i]);
        }
        lemma_trim_end(t, r);
    } else {
        assert(t + b =~= t);
    }
}

} // verus!
